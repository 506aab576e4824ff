//! The summary printed after a scan from the command line.

use vstd::prelude::*;

use crate::format::{human_size, size_text};
use crate::model::{flag_set, flags, NodeId, Tree, ROOT};
use crate::text::{cat2, cat3, dec, decimal, pad_left, pad_right, padded, padded_right, show, shown};
use crate::tui::app::rows::{belongs_above, is_listing_of};
use crate::tui::app::{list_rows, listing, node_size, Sort};
use crate::tui::ui::{put_text, texts};

verus! {

/// What there is to say about an entry, each with a separator in front.
pub open spec fn notes_on(f: u16) -> Seq<char> {
    (if flag_set(f, flags::ERR) {
        ", unreadable"@
    } else {
        ""@
    }) + (if flag_set(f, flags::EXCLUDED) {
        ", excluded"@
    } else {
        ""@
    }) + (if flag_set(f, flags::OTHER_FS) {
        ", other filesystem"@
    } else {
        ""@
    }) + (if flag_set(f, flags::HARDLINK_DUP) {
        ", hardlink, counted elsewhere"@
    } else {
        ""@
    }) + (if flag_set(f, flags::LOOP) {
        ", already visited"@
    } else {
        ""@
    })
}

/// Everything there is to say about an entry, in brackets.
pub open spec fn annotations_text(f: u16) -> Seq<char> {
    let notes = notes_on(f);
    if notes.len() == 0 {
        ""@
    } else {
        "  ["@ + notes.skip(2) + "]"@
    }
}

fn chosen(f: u16, flag: u16, text: &'static str) -> (r: &'static str)
    ensures
        r@ == (if flag_set(f, flag) {
            text@
        } else {
            ""@
        }),
{
    if f & flag != 0 {
        text
    } else {
        ""
    }
}

/// Explain why an entry's size may not be what you expect.
pub fn annotations(f: u16) -> (r: String)
    ensures
        r@ == annotations_text(f),
{
    let mut notes = cat3(
        chosen(f, flags::ERR, ", unreadable"),
        chosen(f, flags::EXCLUDED, ", excluded"),
        chosen(f, flags::OTHER_FS, ", other filesystem"),
    );
    notes.append(chosen(f, flags::HARDLINK_DUP, ", hardlink, counted elsewhere"));
    notes.append(chosen(f, flags::LOOP, ", already visited"));
    let n: usize = notes.as_str().unicode_len();
    if n == 0 {
        return String::from_str("");
    }
    proof {
        reveal_strlit(", unreadable");
        reveal_strlit(", excluded");
        reveal_strlit(", other filesystem");
        reveal_strlit(", hardlink, counted elsewhere");
        reveal_strlit(", already visited");
        reveal_strlit("");
        assert(n >= 2);
    }
    let mut out = String::from_str("  [");
    let mut i: usize = 2;
    while i < n
        invariant
            2 <= i <= n,
            n == notes@.len(),
            out@ == "  ["@ + notes@.subrange(2, i as int),
        decreases n - i,
    {
        out.push(notes.as_str().get_char(i));
        i += 1;
    }
    out.append("]");
    proof {
        assert(notes@.subrange(2, n as int) =~= notes@.skip(2));
    }
    out
}

/// A labelled value.
pub open spec fn label_text(label: Seq<char>, value: Seq<char>) -> Seq<char> {
    "  "@ + pad_right(label, 12) + " "@ + value
}

fn labelled(label: &str, value: &str) -> (r: String)
    ensures
        r@ == label_text(label@, value@),
{
    let label = padded_right(label, 12);
    let mut text = cat3("  ", label.as_str(), " ");
    text.append(value);
    text
}

/// An entry of the report.
pub open spec fn entry_line(t: Tree, apparent: bool, id: NodeId) -> Seq<char> {
    let node = t.nodes()[id as int];
    pad_left(size_text(node_size(t, apparent, id) as nat), ' ', 10) + "  "@ + shown(
        t.spec_name(id),
    ) + (if node.carries(flags::DIR) {
        "/"@
    } else {
        ""@
    }) + annotations_text(node.flags)
}

/// The largest of the first `n` entries, one to a line.
pub open spec fn entry_lines(t: Tree, apparent: bool, rows: Seq<NodeId>, n: int) -> Seq<Seq<char>>
    decreases n,
{
    if n <= 0 {
        Seq::empty()
    } else {
        entry_lines(t, apparent, rows, n - 1).push(entry_line(t, apparent, rows[n - 1]))
    }
}

/// What is said of the scan as a whole. `elapsed` is how long it took and `memory` what the tree
/// takes up.
pub open spec fn summary_lines(t: Tree, apparent: bool, elapsed: Seq<char>, memory: u64) -> Seq<
    Seq<char>,
> {
    let root = t.nodes()[0];
    let always = seq![
        shown(t.root()),
        label_text(
            if apparent {
                "apparent"@
            } else {
                "disk usage"@
            },
            size_text(node_size(t, apparent, ROOT) as nat),
        ),
        label_text("entries"@, dec(root.items as nat)),
        label_text(
            "scanned in"@,
            elapsed + " ("@ + dec(t.nodes().len()) + " nodes, "@ + size_text(memory as nat)
                + " of arena)"@,
        ),
    ];
    if t.missed() > 0 {
        always.push(
            label_text("unreadable"@, dec(t.missed() as nat) + " (sizes are a lower bound)"@),
        )
    } else {
        always
    }
}

/// The report: the scan as a whole, then the `top` largest entries.
pub open spec fn report_lines(
    t: Tree,
    apparent: bool,
    top: nat,
    elapsed: Seq<char>,
    memory: u64,
) -> Seq<Seq<char>> {
    let rows = listing(t, ROOT, Sort::Size, false, apparent);
    let summary = summary_lines(t, apparent, elapsed, memory);
    if rows.len() == 0 {
        summary
    } else if rows.len() > top {
        summary.push(""@) + entry_lines(t, apparent, rows, top as int).push(
            "... and "@ + dec((rows.len() - top) as nat) + " more"@,
        )
    } else {
        summary.push(""@) + entry_lines(t, apparent, rows, rows.len() as int)
    }
}

fn size_in(tree: &Tree, apparent: bool, id: NodeId) -> (r: u64)
    requires
        tree.holds(id),
    ensures
        r == node_size(*tree, apparent, id),
{
    let n = tree.node(id);
    if apparent {
        n.apparent
    } else {
        n.disk
    }
}

fn summarize(tree: &Tree, apparent: bool, elapsed: &str, memory: u64) -> (r: Vec<String>)
    requires
        tree.wf(),
        tree.holds(ROOT),
    ensures
        texts(r@) == summary_lines(*tree, apparent, elapsed@, memory),
{
    let mut lines: Vec<String> = Vec::new();
    put_text(&mut lines, show(tree.root_path()));
    let label = if apparent {
        "apparent"
    } else {
        "disk usage"
    };
    put_text(&mut lines, labelled(label, human_size(size_in(tree, apparent, ROOT)).as_str()));
    let items = decimal(tree.node(ROOT).items as u64);
    put_text(&mut lines, labelled("entries", items.as_str()));
    let nodes = decimal(tree.len() as u64);
    let mut scanned = cat3(elapsed, " (", nodes.as_str());
    scanned.append(" nodes, ");
    scanned.append(human_size(memory).as_str());
    scanned.append(" of arena)");
    put_text(&mut lines, labelled("scanned in", scanned.as_str()));
    if tree.error_count() > 0 {
        let n = decimal(tree.error_count());
        let text = cat2(n.as_str(), " (sizes are a lower bound)");
        put_text(&mut lines, labelled("unreadable", text.as_str()));
    }
    proof {
        assert(texts(lines@) =~= summary_lines(*tree, apparent, elapsed@, memory));
    }
    lines
}

fn entry(tree: &Tree, apparent: bool, id: NodeId) -> (r: String)
    requires
        tree.wf(),
        tree.holds(id),
    ensures
        r@ == entry_line(*tree, apparent, id),
{
    let node = tree.node(id);
    let size = human_size(size_in(tree, apparent, id));
    let wide = padded(size.as_str(), ' ', 10);
    let name = show(tree.name(id));
    let mut text = cat3(wide.as_str(), "  ", name.as_str());
    text.append(
        if node.is_dir() {
            "/"
        } else {
            ""
        },
    );
    text.append(annotations(node.flags).as_str());
    text
}

/// The lines of the report. `elapsed` says how long the scan took and `memory` what the tree takes
/// up.
pub fn report(tree: &Tree, apparent: bool, top: usize, elapsed: &str, memory: u64) -> (r: Vec<
    String,
>)
    requires
        tree.wf(),
    ensures
        texts(r@) == report_lines(*tree, apparent, top as nat, elapsed@, memory),
{
    let mut lines = summarize(tree, apparent, elapsed, memory);
    let rows = list_rows(tree, ROOT, Sort::Size, false, apparent);
    if rows.len() == 0 {
        return lines;
    }
    put_text(&mut lines, String::from_str(""));
    let ghost before = texts(lines@);
    let n: usize = if rows.len() > top {
        top
    } else {
        rows.len()
    };
    let mut i: usize = 0;
    while i < n
        invariant
            i <= n <= rows@.len(),
            tree.wf(),
            forall|k: int| 0 <= k < rows@.len() ==> tree.holds(#[trigger] rows@[k]),
            texts(lines@) == before + entry_lines(*tree, apparent, rows@, i as int),
        decreases n - i,
    {
        let ghost was = texts(lines@);
        proof {
            assert(tree.holds(rows@[i as int]));
        }
        let line = entry(tree, apparent, rows[i]);
        put_text(&mut lines, line);
        proof {
            let text = entry_line(*tree, apparent, rows@[i as int]);
            assert(was.push(text) =~= before + entry_lines(*tree, apparent, rows@, i + 1));
        }
        i += 1;
    }
    if rows.len() > top {
        let left = decimal((rows.len() - top) as u64);
        let ghost was = texts(lines@);
        put_text(&mut lines, cat3("... and ", left.as_str(), " more"));
        proof {
            let text = "... and "@ + dec((rows@.len() - top) as nat) + " more"@;
            assert(was.push(text) =~= before + entry_lines(
                *tree,
                apparent,
                rows@,
                top as int,
            ).push(text));
        }
    }
    lines
}

/// Every row that is reported has a line, in the order of the rows.
pub proof fn law_every_row_has_a_line(t: Tree, apparent: bool, rows: Seq<NodeId>, n: int)
    requires
        0 <= n <= rows.len(),
    ensures
        entry_lines(t, apparent, rows, n).len() == n,
        forall|i: int|
            0 <= i < n ==> #[trigger] entry_lines(t, apparent, rows, n)[i] == entry_line(
                t,
                apparent,
                rows[i],
            ),
    decreases n,
{
    if n > 0 {
        law_every_row_has_a_line(t, apparent, rows, n - 1);
        let (was, now) = (
            entry_lines(t, apparent, rows, n - 1),
            entry_lines(t, apparent, rows, n),
        );
        assert forall|i: int| 0 <= i < n implies #[trigger] now[i] == entry_line(
            t,
            apparent,
            rows[i],
        ) by {
            if i < n - 1 {
                assert(now[i] == was[i]);
            }
        }
    }
}

/// A report has a line for each of the largest entries, as many as were asked for, largest first, and
/// says how many more there are.
pub proof fn law_the_largest_are_reported(
    t: Tree,
    apparent: bool,
    top: nat,
    elapsed: Seq<char>,
    memory: u64,
)
    requires
        is_listing_of(t, 0, Sort::Size, false, apparent, listing(t, 0, Sort::Size, false, apparent)),
    ensures
        ({
            let rows = listing(t, 0, Sort::Size, false, apparent);
            let lines = report_lines(t, apparent, top, elapsed, memory);
            let first = summary_lines(t, apparent, elapsed, memory).len() as int;
            &&& rows.len() == 0 ==> lines.len() == first
            &&& 0 < rows.len() <= top ==> lines.len() == first + 1 + rows.len()
            &&& rows.len() > top ==> {
                &&& lines.len() == first + 1 + top + 1
                &&& lines[first + 1 + top] == "... and "@ + dec((rows.len() - top) as nat)
                    + " more"@
            }
            &&& forall|i: int|
                0 <= i < rows.len() && i < top ==> lines[first + 1 + i] == entry_line(
                    t,
                    apparent,
                    #[trigger] rows[i],
                )
            &&& forall|i: int, j: int|
                0 <= i < j < rows.len() && !apparent ==> t.nodes()[#[trigger] rows[i] as int].disk
                    >= t.nodes()[#[trigger] rows[j] as int].disk
            &&& forall|i: int, j: int|
                0 <= i < j < rows.len() && apparent ==> t.nodes()[#[trigger] rows[i] as int].apparent
                    >= t.nodes()[#[trigger] rows[j] as int].apparent
        }),
{
    let rows = listing(t, 0, Sort::Size, false, apparent);
    let n: int = if rows.len() > top {
        top as int
    } else {
        rows.len() as int
    };
    law_every_row_has_a_line(t, apparent, rows, n);
    assert forall|i: int, j: int| 0 <= i < j < rows.len() implies belongs_above(
        t,
        Sort::Size,
        apparent,
        #[trigger] rows[i],
        #[trigger] rows[j],
    ) by {}
}

/// What is wrong with an entry is said of it, all of it, and nothing of one that nothing is wrong with.
pub proof fn law_what_is_said_of_an_entry(f: u16)
    ensures
        f & 16 == 0 && f & 128 == 0 && f & 8 == 0 && f & 64 == 0 && f & 256 == 0
            ==> annotations_text(f).len() == 0,
        notes_on(f) == (if f & 16 != 0 {
            ", unreadable"@
        } else {
            ""@
        }) + (if f & 128 != 0 {
            ", excluded"@
        } else {
            ""@
        }) + (if f & 8 != 0 {
            ", other filesystem"@
        } else {
            ""@
        }) + (if f & 64 != 0 {
            ", hardlink, counted elsewhere"@
        } else {
            ""@
        }) + (if f & 256 != 0 {
            ", already visited"@
        } else {
            ""@
        }),
{
    reveal_strlit("");
}

} // verus!
