//! What is written of a tree in a dump, told off the tree.

use vstd::prelude::*;

use super::{
    dir_text, dump_text, entries_text, item_text, json_char, json_chars, json_text,
    law_own_sizes_are_written, signed_text,
};
use crate::model::{accounted, is_kid, NodeId, Tree};
use crate::plan::path_repr::hex_char;
use crate::text::{dec, shown};

verus! {

/// How a character is written between quotes: as it is, but for the quote and the backslash, which get
/// a backslash, and for what cannot be seen, which is spelled.
pub proof fn law_how_a_character_is_written(c: char)
    ensures
        c == '"' || c == '\\' ==> json_char(c) == seq!['\\', c],
        c >= ' ' && c != '"' && c != '\\' ==> json_char(c) == seq![c],
        c < ' ' ==> json_char(c).len() >= 2 && json_char(c)[0] == '\\',
        json_char('\u{a}') == seq!['\\', 'n'],
        json_char('\u{9}') == seq!['\\', 't'],
        json_char('\u{d}') == seq!['\\', 'r'],
        json_char('\u{8}') == seq!['\\', 'b'],
        json_char('\u{c}') == seq!['\\', 'f'],
        c < ' ' && json_char(c).len() != 2 ==> json_char(c) == seq![
            '\\',
            'u',
            '0',
            '0',
            hex_char(c as nat / 16),
            hex_char(c as nat % 16),
        ],
{
}

/// A text is written character by character, between quotes.
pub proof fn law_how_a_text_is_written(a: Seq<char>, b: Seq<char>, c: char)
    ensures
        json_chars(a + b) == json_chars(a) + json_chars(b),
        json_chars(seq![c]) == json_char(c),
        json_chars(Seq::empty()) == Seq::<char>::empty(),
        json_text(a) == seq!['"'] + json_chars(a) + seq!['"'],
    decreases b.len(),
{
    assert(seq![c].drop_last() =~= Seq::<char>::empty());
    assert(json_chars(Seq::<char>::empty()) =~= Seq::<char>::empty());
    assert(json_chars(seq![c]) =~= json_char(c));
    if b.len() == 0 {
        assert(a + b =~= a);
        assert(json_chars(a + b) =~= json_chars(a) + json_chars(b));
    } else {
        assert((a + b).drop_last() =~= a + b.drop_last());
        law_how_a_text_is_written(a, b.drop_last(), c);
        assert(json_chars(a + b) =~= json_chars(a) + json_chars(b));
    }
}

/// A number is written as its digits, with a sign in front where it is less than nothing.
pub proof fn law_how_a_number_is_written(n: nat)
    ensures
        signed_text(n as int) == dec(n),
        n > 0 ==> signed_text(-(n as int)) == "-"@ + dec(n),
{
}

/// What is written of an entry: its name, what it takes up by itself, when it was written, and what
/// went wrong with it.
pub proof fn law_what_is_written_of_an_entry(
    t: Tree,
    wa: Seq<nat>,
    wd: Seq<nat>,
    id: NodeId,
    name: Seq<char>,
)
    requires
        t.wf(),
        t.holds(id),
        accounted(t.nodes(), wa, wd),
    ensures
        ({
            let f = t.nodes()[id as int].flags;
            item_text(t, id, name) == "{\"name\":"@ + json_text(name) + ",\"asize\":"@ + dec(
                wa[id as int],
            ) + ",\"dsize\":"@ + dec(wd[id as int]) + ",\"mtime\":"@ + signed_text(
                t.nodes()[id as int].mtime as int,
            ) + (if f & 2 != 0 || f & 4 != 0 {
                ",\"notreg\":true"@
            } else {
                Seq::empty()
            }) + (if f & 16 != 0 {
                ",\"read_error\":true"@
            } else {
                Seq::empty()
            }) + (if f & 128 != 0 {
                ",\"excluded\":\"pattern\""@
            } else {
                Seq::empty()
            }) + (if f & 8 != 0 {
                ",\"excluded\":\"otherfs\""@
            } else {
                Seq::empty()
            }) + "}"@
        }),
{
    law_own_sizes_are_written(t, wa, wd, id);
}

/// What is written of an entry of a directory: where it is a directory itself, with what it holds.
pub open spec fn written(t: Tree, child: NodeId) -> Seq<char> {
    if t.nodes()[child as int].flags & 1 != 0 {
        dir_text(t, child, shown(t.spec_name(child)))
    } else {
        item_text(t, child, shown(t.spec_name(child)))
    }
}

/// Whether a text goes on with an entry, behind a comma and a new line, and then with the rest.
pub open spec fn goes_on(whole: Seq<char>, before: Seq<char>, entry: Seq<char>, rest: Seq<char>) -> bool {
    whole == before + ",\n"@ + entry + rest
}

proof fn lemma_next_entry(t: Tree, id: NodeId, n: int)
    requires
        t.wf(),
        t.holds(id),
        0 < n <= t.kids()[id as int].len(),
    ensures
        entries_text(t, id, n) == entries_text(t, id, n - 1) + ",\n"@ + written(
            t,
            t.kids()[id as int][n - 1],
        ),
{
    assert(is_kid(t.nodes(), t.kids()[id as int][n - 1], id as int));
}

/// Everything in a directory is written, in the order it is in.
pub proof fn law_everything_in_a_directory_is_written(t: Tree, id: NodeId, n: int, j: int)
    requires
        t.wf(),
        t.holds(id),
        0 <= j < n <= t.kids()[id as int].len(),
    ensures
        entries_text(t, id, 0) == Seq::<char>::empty(),
        exists|rest: Seq<char>| #[trigger]
            goes_on(
                entries_text(t, id, n),
                entries_text(t, id, j),
                written(t, t.kids()[id as int][j]),
                rest,
            ),
    decreases n,
{
    let before = entries_text(t, id, j);
    let text = written(t, t.kids()[id as int][j]);
    let now = entries_text(t, id, n);
    lemma_next_entry(t, id, n);
    if j == n - 1 {
        let none = Seq::<char>::empty();
        assert(now =~= now + none);
        assert(goes_on(now, before, text, none));
    } else {
        law_everything_in_a_directory_is_written(t, id, n - 1, j);
        let was = entries_text(t, id, n - 1);
        let rest = choose|rest: Seq<char>| #[trigger] goes_on(was, before, text, rest);
        lemma_goes_on(was, before, text, rest, ",\n"@ + written(t, t.kids()[id as int][n - 1]));
        assert(was + (",\n"@ + written(t, t.kids()[id as int][n - 1])) =~= now);
    }
}

proof fn lemma_goes_on(
    was: Seq<char>,
    before: Seq<char>,
    entry: Seq<char>,
    rest: Seq<char>,
    more: Seq<char>,
)
    requires
        goes_on(was, before, entry, rest),
    ensures
        goes_on(was + more, before, entry, rest + more),
{
    assert(was + more =~= before + ",\n"@ + entry + (rest + more));
}

/// A directory is written as what is written of it by itself, then of everything in it.
pub proof fn law_what_is_written_of_a_directory(t: Tree, id: NodeId, name: Seq<char>)
    ensures
        dir_text(t, id, name) == "["@ + item_text(t, id, name) + entries_text(
            t,
            id,
            t.kids()[id as int].len() as int,
        ) + "]"@,
{
}

/// A dump is what it is and who made it, then the root with all it holds.
pub proof fn law_what_a_dump_is(t: Tree, version: Seq<char>, timestamp: nat)
    ensures
        dump_text(t, version, timestamp) == "[1,2,{\"progname\":\"ccdu\",\"progver\":\""@ + version
            + "\",\"timestamp\":"@ + dec(timestamp) + "},"@ + dir_text(t, 0, shown(t.root()))
            + "]\n"@,
{
}

} // verus!
