//! What an entry looks like on the screen, told off what is known of it.

use vstd::prelude::*;

use super::{
    bar_text, entry_text, field_note, footer_text, info_texts, kind_text, label_in, lead_text,
    name_tone, note_on, op_texts, percent_text, row_note, seen_from, tail_of, Tone,
};
use crate::format::{grouped, size_text, time_text};
use crate::model::{NodeId, Tree};
use crate::text::{pad_left, repeat, shown};
use crate::tui::app::{Face, Graph, OpNote};

verus! {

/// What stands in front of an entry: a star where it is marked, and a letter where it is staged, which
/// says whether it is to be moved or deleted.
pub proof fn law_marks_are_shown(face: Face, id: NodeId)
    ensures
        lead_text(face, id).len() == 2,
        (lead_text(face, id)[0] == '*') == face.marks.contains(id),
        (lead_text(face, id)[1] == 'D') == (face.staged.contains_key(id) && face.staged[id].to
            is None),
        (lead_text(face, id)[1] == 'M') == (face.staged.contains_key(id) && face.staged[id].to
            is Some),
{
}

/// What is noted of an entry, the worst first: that it could not be read, that it was excluded, that it
/// is on another filesystem, that it is counted elsewhere, or that it was visited before.
pub proof fn law_what_is_noted_of_an_entry(f: u16)
    ensures
        f & 16 != 0 ==> note_on(f) == Some("unreadable"@),
        f & 16 == 0 && f & 128 != 0 ==> note_on(f) == Some("excluded"@),
        f & 16 == 0 && f & 128 == 0 && f & 8 != 0 ==> note_on(f) == Some("other filesystem"@),
        f & 16 == 0 && f & 128 == 0 && f & 8 == 0 && f & 64 != 0 ==> note_on(f) == Some(
            "hardlink, counted elsewhere"@,
        ),
        f & 16 == 0 && f & 128 == 0 && f & 8 == 0 && f & 64 == 0 && f & 256 != 0 ==> note_on(f)
            == Some("already visited"@),
        f & 16 == 0 && f & 128 == 0 && f & 8 == 0 && f & 64 == 0 && f & 256 == 0 ==> note_on(f)
            is None,
{
}

/// What an entry is called that is not a file.
pub proof fn law_what_an_entry_is_called(f: u16)
    ensures
        f & 2 != 0 ==> kind_text(f) == "symlink"@,
        f & 2 == 0 && f & 1 != 0 ==> kind_text(f) == "directory"@,
        f & 2 == 0 && f & 1 == 0 && f & 4 != 0 ==> kind_text(f) == "special file"@,
        f & 2 == 0 && f & 1 == 0 && f & 4 == 0 ==> kind_text(f) == "file"@,
{
}

/// What could not be read is red, what does not count is grey, and what is left has the colour of its
/// kind.
pub proof fn law_what_colour_a_name_has(f: u16)
    ensures
        f & 16 != 0 ==> name_tone(f) == Tone::Red,
        f & 16 == 0 && (f & 64 != 0 || f & 128 != 0 || f & 256 != 0) ==> name_tone(f) == Tone::Grey,
        f & 16 == 0 && f & 64 == 0 && f & 128 == 0 && f & 256 == 0 ==> name_tone(f) == (if f & 2
            != 0 {
            Tone::Magenta
        } else if f & 1 != 0 {
            Tone::BoldCyan
        } else if f & 4 != 0 {
            Tone::Yellow
        } else {
            Tone::Plain
        }),
{
}

/// A bar is as full as an entry is large, out of twelve cells, and full for the largest.
pub proof fn law_how_full_a_bar_is(size: u64, max: u64)
    requires
        0 < max,
        size <= max,
    ensures
        exists|filled: nat|
            {
                &&& filled * max <= size * 12 < (filled + 1) * max
                &&& filled <= 12
                &&& bar_text(size, max) == "["@ + #[trigger] repeat('█', filled) + repeat(
                    ' ',
                    (12 - filled) as nat,
                ) + "] "@
            },
{
    let filled = ((size * 12) / max as int) as nat;
    let m = max as int;
    vstd::arithmetic::div_mod::lemma_fundamental_div_mod(size * 12, m);
    assert(m * (filled as int) == (filled as int) * m) by (nonlinear_arith);
    assert((filled as int + 1) * m == (filled as int) * m + m) by (nonlinear_arith);
    assert(filled <= 12) by (nonlinear_arith)
        requires
            filled * m <= size * 12,
            size <= m,
            m > 0,
    ;
    assert(bar_text(size, max) == "["@ + repeat('█', filled) + repeat(' ', (12 - filled) as nat)
        + "] "@);
}

/// A text that is too long for its place keeps its end, with a sign that there was more; one that fits
/// is left as it is.
pub proof fn law_a_text_keeps_its_end(s: Seq<char>, width: nat)
    ensures
        tail_of(s, width).len() <= width,
        s.len() <= width ==> tail_of(s, width) == s,
        s.len() > width > 0 ==> {
            &&& tail_of(s, width).len() == width
            &&& tail_of(s, width)[0] == '…'
            &&& forall|k: int|
                1 <= k < width ==> #[trigger] tail_of(s, width)[k] == s[s.len() - width + k]
        },
{
}

/// What lies in a directory is shown from there.
pub proof fn law_a_path_is_shown_from_the_root(dir: Seq<u8>, rest: Seq<u8>)
    requires
        rest.len() > 0,
    ensures
        seen_from(dir + seq![47u8] + rest, dir) == rest,
        seen_from(dir, dir) == dir,
{
    let path = dir + seq![47u8] + rest;
    assert(path.take(dir.len() as int) =~= dir);
    assert(path.skip(dir.len() as int + 1) =~= rest);
}

/// A tile has a label where there is room for one inside its border, and it fits there.
pub proof fn law_a_label_fits_its_tile(name: Seq<char>, width: nat, height: nat)
    ensures
        label_in(name, width, height) is Some == (width >= 3 && height >= 3),
        label_in(name, width, height) matches Some(text) ==> text.len() + 2 <= width && (
        name.len() + 2 <= width ==> text == name),
{
}

/// A directory is told by a slash behind its name.
pub proof fn law_directories_are_told_by_a_slash(t: Tree, id: NodeId)
    ensures
        t.nodes()[id as int].flags & 1 != 0 ==> entry_text(t, id) == shown(t.spec_name(id)) + seq!['/'],
        t.nodes()[id as int].flags & 1 == 0 ==> entry_text(t, id) == shown(t.spec_name(id)),
{
    assert(shown(t.spec_name(id)).push('/') =~= shown(t.spec_name(id)) + seq!['/']);
}

/// What is being typed is shown before anything else, then what there is to say.
pub proof fn law_what_the_last_line_shows(face: Face, width: nat)
    ensures
        face.prompt matches Some(p) ==> footer_text(face, width) == " "@ + p.label + " "@ + p.input,
        face.prompt is None && face.status is Some ==> footer_text(face, width) == " "@
            + face.status->0,
        face.prompt is None && face.status is None && face.stale ==> footer_text(face, width)
            == " the listing is from before the commit; rerun ccdu to rescan"@,
{
}

/// A row shows how large an entry is, as a bar and in percent where that is asked for, what it is
/// called, and what there is to note of it, in that order.
pub proof fn law_what_a_row_shows(face: Face, id: NodeId, max: u64, total: u64)
    ensures
        ({
            let row = row_note(face, id, max, total);
            let node = face.tree.nodes()[id as int];
            let size = if face.apparent {
                node.apparent
            } else {
                node.disk
            };
            let bars: int = if face.graph == Graph::Bar || face.graph == Graph::Both {
                1
            } else {
                0
            };
            let percents: int = if face.graph == Graph::Percent || face.graph == Graph::Both {
                1
            } else {
                0
            };
            &&& row.len() == 3 + bars + percents + if note_on(node.flags) is Some {
                1int
            } else {
                0int
            }
            &&& row[0].text == lead_text(face, id)
            &&& row[1].text == pad_left(size_text(size as nat), ' ', 10) + "  "@
            &&& bars == 1 ==> row[2].text == bar_text(size, max)
            &&& percents == 1 ==> row[2 + bars].text == percent_text(size, total)
            &&& row[2 + bars + percents].text == entry_text(face.tree, id)
            &&& row[2 + bars + percents].tone == name_tone(node.flags)
            &&& note_on(node.flags) matches Some(text) ==> row[row.len() - 1].text == "  "@ + text
        }),
{
}

/// What is told of an entry when it is asked about: where it is, what it is, what it takes up and when
/// it was written, how much is in it if it is a directory, and what there is to note.
pub proof fn law_what_is_told_of_an_entry(t: Tree, id: NodeId)
    ensures
        ({
            let lines = info_texts(t, id);
            let node = t.nodes()[id as int];
            let items: int = if node.flags & 1 != 0 {
                1
            } else {
                0
            };
            &&& lines.len() == 5 + items + if note_on(node.flags) is Some {
                1int
            } else {
                0int
            }
            &&& lines[0] == field_note("path"@, shown(t.spec_path(id)))
            &&& lines[1] == field_note("type"@, kind_text(node.flags))
            &&& lines[2] == field_note("disk usage"@, size_text(node.disk as nat))
            &&& lines[3] == field_note("apparent"@, size_text(node.apparent as nat))
            &&& lines[4] == field_note("modified"@, time_text(node.mtime as int))
            &&& items == 1 ==> lines[5] == field_note("items"@, grouped(node.items as nat))
            &&& note_on(node.flags) matches Some(text) ==> lines[lines.len() - 1] == field_note(
                "note"@,
                text,
            )
        }),
{
}

/// An operation is shown as what it does, what that comes to, and what it takes; one that moves
/// something also as where that goes.
pub proof fn law_what_is_shown_of_an_operation(op: OpNote)
    ensures
        op_texts(op).len() == (if op.to is Some {
            2nat
        } else {
            1nat
        }),
        op_texts(op)[0] == (if op.to is Some {
            " M "@
        } else {
            " D "@
        }) + pad_left(size_text(op.est_bytes as nat), ' ', 10) + "  "@ + shown(op.from),
        op.to matches Some(dst) ==> op_texts(op)[1] == repeat(' ', 14) + "→ "@ + shown(dst),
{
}

} // verus!
