//! What is shown, as text and the tone each part of it is painted in. None of it changes the
//! browser.

pub mod look;

use vstd::prelude::*;

use crate::dup::{shares_inode, DupProgress};
use crate::format::{
    format_time, grouped, human_count, human_size, percent_in_tenths, percent_tenths, size_text,
    time_text,
};
use crate::model::{flag_set, flags, NodeId, Tree};
use crate::path::SEP;
use crate::plan::Op;
use crate::scan::Progress;
use crate::text::{
    cat2, cat3, dec, decimal, digit, digit_char, pad_left, pad_right, padded, padded_right, repeat,
    repeated, show, shown,
};
use crate::tui::app::stage::staged_total;
use crate::tui::app::{node_size, op_note, App, DupRow, Face, Graph, OpNote, StagedKind};

verus! {

/// How many cells wide the bar of a row is.
pub const BAR_WIDTH: usize = 12;

/// What a part of a line is painted in.
#[derive(Clone, Copy, Debug, PartialEq, Eq, Structural)]
pub enum Tone {
    Plain,
    Bold,
    /// The name of the program, set off from the rest.
    Badge,
    Green,
    Blue,
    Grey,
    Red,
    Magenta,
    Yellow,
    Cyan,
    BoldCyan,
}

/// A part of a line.
#[derive(Clone, Debug, PartialEq, Eq)]
pub struct Piece {
    pub text: String,
    pub tone: Tone,
}

#[verifier::ext_equal]
pub struct PieceNote {
    pub text: Seq<char>,
    pub tone: Tone,
}

impl View for Piece {
    type V = PieceNote;

    open spec fn view(&self) -> PieceNote {
        PieceNote { text: self.text@, tone: self.tone }
    }
}

/// A line, in terms of its text.
pub open spec fn line_note(line: Seq<Piece>) -> Seq<PieceNote> {
    line.map_values(|p: Piece| p@)
}

pub open spec fn piece(text: Seq<char>, tone: Tone) -> PieceNote {
    PieceNote { text, tone }
}

fn put(line: &mut Vec<Piece>, text: String, tone: Tone)
    ensures
        line_note(final(line)@) == line_note(old(line)@).push(piece(text@, tone)),
{
    let p = Piece { text, tone };
    let ghost note = p@;
    let ghost before = line@;
    line.push(p);
    proof {
        assert(line_note(line@) =~= line_note(before).push(note));
    }
}

/// The whole of a line as text.
pub open spec fn flat(line: Seq<PieceNote>) -> Seq<char>
    decreases line.len(),
{
    if line.len() == 0 {
        Seq::empty()
    } else {
        flat(line.drop_last()) + line.last().text
    }
}

proof fn lemma_flat_push(line: Seq<PieceNote>, p: PieceNote)
    ensures
        flat(line.push(p)) == flat(line) + p.text,
{
    assert(line.push(p).drop_last() =~= line);
}

proof fn lemma_flat_add(a: Seq<PieceNote>, b: Seq<PieceNote>)
    ensures
        flat(a + b) == flat(a) + flat(b),
    decreases b.len(),
{
    if b.len() == 0 {
        assert(a + b =~= a);
        assert(flat(a) + flat(b) =~= flat(a));
    } else {
        lemma_flat_add(a, b.drop_last());
        assert((a + b).drop_last() =~= a + b.drop_last());
        assert(flat(a + b) =~= flat(a) + flat(b));
    }
}

/// The whole of a line as text.
pub fn line_text(line: &Vec<Piece>) -> (r: String)
    ensures
        r@ == flat(line_note(line@)),
{
    let mut out = String::new();
    let mut i: usize = 0;
    proof {
        assert(line_note(line@).take(0) =~= Seq::<PieceNote>::empty());
    }
    while i < line.len()
        invariant
            i <= line@.len(),
            out@ == flat(line_note(line@).take(i as int)),
        decreases line.len() - i,
    {
        proof {
            let all = line_note(line@);
            assert(all.take(i + 1).drop_last() =~= all.take(i as int));
        }
        out.append(line[i].text.as_str());
        i += 1;
    }
    proof {
        assert(line_note(line@).take(i as int) =~= line_note(line@));
    }
    out
}

/// A text that has to fit: what does not is left off in front, where paths are alike.
pub open spec fn tail_of(s: Seq<char>, width: nat) -> Seq<char> {
    if s.len() <= width {
        s
    } else if width == 0 {
        Seq::empty()
    } else {
        seq!['…'] + s.skip(s.len() - width + 1)
    }
}

/// A text that has to fit.
pub fn tail(s: &str, width: usize) -> (r: String)
    ensures
        r@ == tail_of(s@, width as nat),
{
    let len: usize = s.unicode_len();
    let mut out = String::new();
    if len > width && width == 0 {
        return out;
    }
    let from: usize = if len > width {
        len - width + 1
    } else {
        0
    };
    if len > width {
        out.push('…');
    }
    let mut i: usize = from;
    while i < len
        invariant
            from <= i <= len,
            len == s@.len(),
            out@ == (if len > width {
                seq!['…']
            } else {
                Seq::empty()
            }) + s@.subrange(from as int, i as int),
        decreases len - i,
    {
        out.push(s.get_char(i));
        i += 1;
    }
    proof {
        assert(s@.subrange(from as int, i as int) =~= s@.skip(from as int));
        assert(out@ =~= tail_of(s@, width as nat));
    }
    out
}

// ---------------------------------------------------------------------------------------------
// The header

pub open spec fn totals_text(t: Tree, apparent: bool, dir: NodeId) -> Seq<char> {
    size_text(node_size(t, apparent, dir) as nat) + " in "@ + grouped(
        t.nodes()[dir as int].items as nat,
    ) + " items"@
}

/// What a reader must not miss: what is staged, and why the totals are not the whole picture.
#[verifier::opaque]
pub open spec fn markers(face: Face) -> Seq<PieceNote> {
    let staged = if face.staged.dom().len() > 0 {
        seq![
            piece(
                "  ["@ + dec(face.staged.dom().len()) + " staged, "@ + size_text(
                    staged_total(face.staged) as nat,
                ) + "]"@,
                Tone::Yellow,
            ),
        ]
    } else {
        Seq::empty()
    };
    let partial = if face.tree.partial() {
        seq![piece("  [partial]"@, Tone::Yellow)]
    } else {
        Seq::empty()
    };
    let unreadable = if face.tree.missed() > 0 {
        seq![piece("  ["@ + dec(face.tree.missed() as nat) + " unreadable]"@, Tone::Red)]
    } else {
        Seq::empty()
    };
    let stale = if face.stale {
        seq![piece("  [stale]"@, Tone::Red)]
    } else {
        Seq::empty()
    };
    staged + partial + unreadable + stale
}

/// How much of the header is taken whatever happens.
pub open spec fn header_taken(face: Face) -> nat {
    flat(markers(face)).len() + 7
}

/// The path and the totals of the directory, as far as there is room for them. The path gives way
/// first, then the totals.
#[verifier::opaque]
pub open spec fn header_middle(path: Seq<char>, totals: Seq<char>, room: nat) -> Seq<PieceNote> {
    if room > totals.len() + 2 {
        seq![
            piece(tail_of(path, (room - totals.len() - 2) as nat), Tone::Bold),
            piece("  "@ + totals, Tone::Plain),
        ]
    } else {
        seq![piece(tail_of(path, room), Tone::Bold)]
    }
}

/// The header of the browser.
pub open spec fn header_line(face: Face, width: nat) -> Seq<PieceNote> {
    let taken = header_taken(face);
    let room: nat = if width > taken {
        (width - taken) as nat
    } else {
        0
    };
    let middle = header_middle(
        shown(face.tree.spec_path(face.dir)),
        totals_text(face.tree, face.apparent, face.dir),
        room,
    );
    seq![piece(" ccdu "@, Tone::Badge), piece(" "@, Tone::Plain)] + middle + markers(face) + seq![
        piece(repeat(' ', (room - flat(middle).len()) as nat), Tone::Plain),
    ]
}

proof fn lemma_tail_fits(s: Seq<char>, width: nat)
    ensures
        tail_of(s, width).len() <= width,
{
}

proof fn lemma_middle_fits(path: Seq<char>, totals: Seq<char>, room: nat)
    ensures
        flat(header_middle(path, totals, room)).len() <= room,
{
    reveal(header_middle);
    let line = header_middle(path, totals, room);
    reveal_strlit("  ");
    if room > totals.len() + 2 {
        let p = piece(tail_of(path, (room - totals.len() - 2) as nat), Tone::Bold);
        let q = piece("  "@ + totals, Tone::Plain);
        lemma_tail_fits(path, (room - totals.len() - 2) as nat);
        assert(line =~= Seq::<PieceNote>::empty().push(p).push(q));
        lemma_flat_push(Seq::<PieceNote>::empty(), p);
        lemma_flat_push(Seq::<PieceNote>::empty().push(p), q);
    } else {
        let p = piece(tail_of(path, room), Tone::Bold);
        lemma_tail_fits(path, room);
        assert(line =~= Seq::<PieceNote>::empty().push(p));
        lemma_flat_push(Seq::<PieceNote>::empty(), p);
    }
}

/// Warnings never fall off the end of the header: where they fit at all, the header is exactly as
/// wide as the screen and holds all of them.
pub proof fn law_warnings_stay(face: Face, width: nat)
    requires
        header_taken(face) <= width,
    ensures
        flat(header_line(face, width)).len() == width,
        exists|i: int|
            0 <= i && i + flat(markers(face)).len() <= width && #[trigger] flat(
                header_line(face, width),
            ).subrange(i, i + flat(markers(face)).len()) == flat(markers(face)),
{
    let room = (width - header_taken(face)) as nat;
    let path = shown(face.tree.spec_path(face.dir));
    let totals = totals_text(face.tree, face.apparent, face.dir);
    let middle = header_middle(path, totals, room);
    let m = markers(face);
    let lead = seq![piece(" ccdu "@, Tone::Badge), piece(" "@, Tone::Plain)];
    let pad = seq![piece(repeat(' ', (room - flat(middle).len()) as nat), Tone::Plain)];
    lemma_middle_fits(path, totals, room);
    lemma_flat_add(lead + middle + m, pad);
    lemma_flat_add(lead + middle, m);
    lemma_flat_add(lead, middle);
    reveal_strlit(" ccdu ");
    reveal_strlit(" ");
    lemma_flat_push(Seq::<PieceNote>::empty(), lead[0]);
    lemma_flat_push(Seq::<PieceNote>::empty().push(lead[0]), lead[1]);
    assert(lead =~= Seq::<PieceNote>::empty().push(lead[0]).push(lead[1]));
    lemma_flat_push(Seq::<PieceNote>::empty(), pad[0]);
    assert(pad =~= Seq::<PieceNote>::empty().push(pad[0]));
    let i = 7 + flat(middle).len() as int;
    let all = flat(header_line(face, width));
    assert(all =~= flat(lead) + flat(middle) + flat(m) + flat(pad));
    assert(all.subrange(i, i + flat(m).len()) =~= flat(m));
}

fn put_markers(app: &App, line: &mut Vec<Piece>)
    requires
        app.wf(),
    ensures
        line_note(final(line)@) == line_note(old(line)@) + markers(app@),
{
    broadcast use vstd::std_specs::hash::group_hash_axioms;

    let ghost before = line_note(line@);
    let staged: usize = app.staged.len();
    proof {
        reveal(markers);
        assert(app.staged@.dom() =~= app@.staged.dom());
    }
    if staged > 0 {
        let n = decimal(staged as u64);
        let size = human_size(app.staged_bytes());
        let mut text = cat3("  [", n.as_str(), " staged, ");
        text.append(size.as_str());
        text.append("]");
        put(line, text, Tone::Yellow);
    }
    if app.tree.is_cancelled() {
        put(line, String::from_str("  [partial]"), Tone::Yellow);
    }
    let errors: u64 = app.tree.error_count();
    if errors > 0 {
        let n = decimal(errors);
        put(line, cat3("  [", n.as_str(), " unreadable]"), Tone::Red);
    }
    if app.stale {
        put(line, String::from_str("  [stale]"), Tone::Red);
    }
    proof {
        assert(line_note(line@) =~= before + markers(app@));
    }
}

/// Puts the path and the totals into a line, and says how long they are.
fn put_middle(line: &mut Vec<Piece>, path: &str, totals: &str, room: usize) -> (r: usize)
    ensures
        line_note(final(line)@) == line_note(old(line)@) + header_middle(path@, totals@, room as nat),
        r == flat(header_middle(path@, totals@, room as nat)).len(),
        r <= room,
{
    let ghost before = line_note(line@);
    let long: usize = totals.unicode_len();
    let mut middle: Vec<Piece> = Vec::new();
    if room > long && room - long > 2 {
        put(&mut middle, tail(path, room - long - 2), Tone::Bold);
        put(&mut middle, cat2("  ", totals), Tone::Plain);
    } else {
        put(&mut middle, tail(path, room), Tone::Bold);
    }
    let ghost was = line@;
    let ghost mid = middle@;
    proof {
        reveal(header_middle);
        assert(line_note(mid) =~= header_middle(path@, totals@, room as nat));
        lemma_middle_fits(path@, totals@, room as nat);
        assert(line_note(was + mid) =~= before + line_note(mid));
    }
    let short: usize = line_text(&middle).as_str().unicode_len();
    line.append(&mut middle);
    short
}

/// How long the markers are.
fn markers_len(app: &App) -> (r: usize)
    requires
        app.wf(),
    ensures
        r == flat(markers(app@)).len(),
{
    let mut marks: Vec<Piece> = Vec::new();
    put_markers(app, &mut marks);
    proof {
        assert(line_note(Seq::<Piece>::empty()) =~= Seq::<PieceNote>::empty());
        assert(line_note(marks@) =~= markers(app@));
    }
    line_text(&marks).as_str().unicode_len()
}

impl App {
    fn totals(&self) -> (r: String)
        requires
            self.wf(),
        ensures
            r@ == totals_text(*self.tree, self.apparent, self.dir),
    {
        let size = human_size(self.size_of(self.dir));
        let items = human_count(self.tree.node(self.dir).items as u64);
        let mut text = cat3(size.as_str(), " in ", items.as_str());
        text.append(" items");
        text
    }

    /// The header: where one is, how much is there, and what must not be missed.
    pub fn header(&self, width: u16) -> (r: Vec<Piece>)
        requires
            self.wf(),
        ensures
            line_note(r@) == header_line(self@, width as nat),
    {
        let used: usize = markers_len(self);
        let width: usize = width as usize;
        let room: usize = if width > used && width - used > 7 {
            width - used - 7
        } else {
            0
        };
        let path = show(self.path_to(self.dir).as_slice());
        let totals = self.totals();
        let mut line: Vec<Piece> = Vec::new();
        put(&mut line, String::from_str(" ccdu "), Tone::Badge);
        put(&mut line, String::from_str(" "), Tone::Plain);
        proof {
            assert(line_note(line@) =~= seq![
                piece(" ccdu "@, Tone::Badge),
                piece(" "@, Tone::Plain),
            ]);
        }
        let short: usize = put_middle(&mut line, path.as_str(), totals.as_str(), room);
        put_markers(self, &mut line);
        let ghost before = line_note(line@);
        put(&mut line, repeated(' ', room - short), Tone::Plain);
        proof {
            let pad = piece(repeat(' ', (room - short) as nat), Tone::Plain);
            assert(before.push(pad) =~= before + seq![pad]);
        }
        line
    }
}

// ---------------------------------------------------------------------------------------------
// Rows

/// Why an entry's size may not be what it looks like.
pub open spec fn note_on(f: u16) -> Option<Seq<char>> {
    if flag_set(f, flags::ERR) {
        Some("unreadable"@)
    } else if flag_set(f, flags::EXCLUDED) {
        Some("excluded"@)
    } else if flag_set(f, flags::OTHER_FS) {
        Some("other filesystem"@)
    } else if flag_set(f, flags::HARDLINK_DUP) {
        Some("hardlink, counted elsewhere"@)
    } else if flag_set(f, flags::LOOP) {
        Some("already visited"@)
    } else {
        None
    }
}

/// A short reason why an entry's size may not be what it looks like.
pub fn annotation(f: u16) -> (r: Option<&'static str>)
    ensures
        r is Some == note_on(f) is Some,
        r matches Some(s) ==> note_on(f) == Some(s@),
{
    if f & flags::ERR != 0 {
        Some("unreadable")
    } else if f & flags::EXCLUDED != 0 {
        Some("excluded")
    } else if f & flags::OTHER_FS != 0 {
        Some("other filesystem")
    } else if f & flags::HARDLINK_DUP != 0 {
        Some("hardlink, counted elsewhere")
    } else if f & flags::LOOP != 0 {
        Some("already visited")
    } else {
        None
    }
}

/// What a name is painted in.
pub open spec fn name_tone(f: u16) -> Tone {
    if flag_set(f, flags::ERR) {
        Tone::Red
    } else if flag_set(f, flags::HARDLINK_DUP) || flag_set(f, flags::EXCLUDED) || flag_set(
        f,
        flags::LOOP,
    ) {
        Tone::Grey
    } else if flag_set(f, flags::SYMLINK) {
        Tone::Magenta
    } else if flag_set(f, flags::DIR) {
        Tone::BoldCyan
    } else if flag_set(f, flags::OTHER) {
        Tone::Yellow
    } else {
        Tone::Plain
    }
}

/// What a name is painted in.
pub fn name_style(f: u16) -> (r: Tone)
    ensures
        r == name_tone(f),
{
    if f & flags::ERR != 0 {
        Tone::Red
    } else if f & flags::HARDLINK_DUP != 0 || f & flags::EXCLUDED != 0 || f & flags::LOOP != 0 {
        Tone::Grey
    } else if f & flags::SYMLINK != 0 {
        Tone::Magenta
    } else if f & flags::DIR != 0 {
        Tone::BoldCyan
    } else if f & flags::OTHER != 0 {
        Tone::Yellow
    } else {
        Tone::Plain
    }
}

/// What is going to happen to an entry: a star if it is marked, then a letter if it is staged.
pub open spec fn lead_text(face: Face, id: NodeId) -> Seq<char> {
    seq![
        if face.marks.contains(id) {
            '*'
        } else {
            ' '
        },
        if face.staged.contains_key(id) {
            if face.staged[id].to is Some {
                'M'
            } else {
                'D'
            }
        } else {
            ' '
        },
    ]
}

/// How much of `max` a size is, as a bar.
pub open spec fn bar_text(size: u64, max: u64) -> Seq<char> {
    let filled = (size * BAR_WIDTH) / max as int;
    "["@ + repeat('█', filled as nat) + repeat(' ', (BAR_WIDTH - filled) as nat) + "] "@
}

/// How much of `total` a size is, in percent with one decimal, computed in double precision.
pub open spec fn percent_text(size: u64, total: u64) -> Seq<char> {
    let tenths = percent_tenths(size, total);
    pad_left(dec(tenths / 10) + "."@ + seq![digit(tenths % 10)], ' ', 5) + "%  "@
}

/// What an entry is listed as.
pub open spec fn entry_text(t: Tree, id: NodeId) -> Seq<char> {
    if t.nodes()[id as int].carries(flags::DIR) {
        shown(t.spec_name(id)).push('/')
    } else {
        shown(t.spec_name(id))
    }
}

/// A row of the listing.
pub open spec fn row_note(face: Face, id: NodeId, max: u64, total: u64) -> Seq<PieceNote> {
    let size = node_size(face.tree, face.apparent, id);
    let f = face.tree.nodes()[id as int].flags;
    let lead = seq![
        piece(lead_text(face, id), Tone::Plain),
        piece(pad_left(size_text(size as nat), ' ', 10) + "  "@, Tone::Green),
    ];
    let bar = if face.graph == Graph::Bar || face.graph == Graph::Both {
        seq![piece(bar_text(size, max), Tone::Blue)]
    } else {
        Seq::empty()
    };
    let percent = if face.graph == Graph::Percent || face.graph == Graph::Both {
        seq![piece(percent_text(size, total), Tone::Grey)]
    } else {
        Seq::empty()
    };
    let note = match note_on(f) {
        Some(text) => seq![piece("  "@ + text, Tone::Grey)],
        None => Seq::empty(),
    };
    lead + bar + percent + seq![piece(entry_text(face.tree, id), name_tone(f))] + note
}

fn bar(size: u64, max: u64) -> (r: String)
    requires
        0 < max,
        size <= max,
    ensures
        r@ == bar_text(size, max),
{
    let filled: usize = {
        proof {
            assert((size * 12) / max as int <= 12 && 0 <= (size * 12) / max as int)
                by (nonlinear_arith)
                requires
                    0 < max,
                    size <= max,
            ;
        }
        ((size as u128 * 12) / max as u128) as usize
    };
    let full = repeated('█', filled);
    let rest = repeated(' ', BAR_WIDTH - filled);
    let mut text = cat3("[", full.as_str(), rest.as_str());
    text.append("] ");
    text
}

fn percent(size: u64, total: u64) -> (r: String)
    requires
        0 < total,
    ensures
        r@ == percent_text(size, total),
{
    let tenths: u128 = percent_in_tenths(size, total);
    let whole = decimal_wide(tenths / 10);
    let mut text = cat2(whole.as_str(), ".");
    text.push(digit_char((tenths % 10) as u64));
    let mut out = padded(text.as_str(), ' ', 5);
    out.append("%  ");
    out
}

/// Writes a number that need not fit into 64 bits.
fn decimal_wide(n: u128) -> (r: String)
    ensures
        r@ == dec(n as nat),
    decreases n,
{
    if n < 10 {
        let mut s = String::new();
        s.push(digit_char(n as u64));
        s
    } else {
        let mut s = decimal_wide(n / 10);
        s.push(digit_char((n % 10) as u64));
        s
    }
}

fn entry_name(app: &App, id: NodeId) -> (r: String)
    requires
        app.wf(),
        app.tree.holds(id),
    ensures
        r@ == entry_text(*app.tree, id),
{
    let mut name = show(app.name_of(id));
    if app.tree.node(id).is_dir() {
        name.push('/');
    }
    name
}

fn lead(app: &App, id: NodeId) -> (r: String)
    ensures
        r@ == lead_text(app@, id),
{
    broadcast use vstd::std_specs::hash::group_hash_axioms;

    let mut out = String::new();
    if app.marks.contains(&id) {
        out.push('*');
    } else {
        out.push(' ');
    }
    match app.staged.get(&id) {
        Some(s) => {
            proof {
                assert(app@.staged[id] == s@);
            }
            match &s.kind {
                StagedKind::Move(_) => out.push('M'),
                StagedKind::Delete => out.push('D'),
            }
        },
        None => out.push(' '),
    }
    proof {
        assert(out@ =~= lead_text(app@, id));
    }
    out
}

/// A row of the listing. `max` is what a full bar stands for, `total` what a hundred percent is.
pub fn row_line(app: &App, id: NodeId, max: u64, total: u64) -> (r: Vec<Piece>)
    requires
        app.wf(),
        app.tree.holds(id),
        0 < max,
        0 < total,
        node_size(*app.tree, app.apparent, id) <= max,
    ensures
        line_note(r@) == row_note(app@, id, max, total),
{
    let size: u64 = app.size_of(id);
    let f: u16 = app.tree.node(id).flags;
    let mut line: Vec<Piece> = Vec::new();
    put(&mut line, lead(app, id), Tone::Plain);
    let text = human_size(size);
    let wide = padded(text.as_str(), ' ', 10);
    put(&mut line, cat2(wide.as_str(), "  "), Tone::Green);
    if app.graph == Graph::Bar || app.graph == Graph::Both {
        put(&mut line, bar(size, max), Tone::Blue);
    }
    if app.graph == Graph::Percent || app.graph == Graph::Both {
        put(&mut line, percent(size, total), Tone::Grey);
    }
    put(&mut line, entry_name(app, id), name_style(f));
    match annotation(f) {
        Some(note) => put(&mut line, cat2("  ", note), Tone::Grey),
        None => {},
    }
    proof {
        assert(line_note(line@) =~= row_note(app@, id, max, total));
    }
    line
}

// ---------------------------------------------------------------------------------------------
// The footer

/// What the footer says about the listing.
pub open spec fn listing_text(face: Face) -> Seq<char> {
    " sort: "@ + face.sort.spec_label() + (if face.reverse {
        "▲"@
    } else {
        "▼"@
    }) + "  size: "@ + (if face.apparent {
        "apparent"@
    } else {
        "disk"@
    })
}

pub open spec fn hint_text() -> Seq<char> {
    "space mark  d delete  m move  u unstage  p plan  ? help  q quit "@
}

/// The footer: what is being asked, what was last said, why the listing is out of date, or how it
/// is put in order. A hint goes at the far end, and is dropped rather than let the two collide.
pub open spec fn footer_text(face: Face, width: nat) -> Seq<char> {
    if face.prompt is Some {
        " "@ + face.prompt->0.label + " "@ + face.prompt->0.input
    } else if face.status is Some {
        " "@ + face.status->0
    } else if face.stale {
        " the listing is from before the commit; rerun ccdu to rescan"@
    } else {
        let left = listing_text(face);
        if left.len() + hint_text().len() <= width {
            left + repeat(' ', (width - left.len() - hint_text().len()) as nat) + hint_text()
        } else {
            left
        }
    }
}

fn listing_words(app: &App) -> (r: String)
    ensures
        r@ == listing_text(app@),
{
    let mut left = cat3(
        " sort: ",
        app.sort.label(),
        if app.reverse {
            "▲"
        } else {
            "▼"
        },
    );
    left.append("  size: ");
    left.append(
        if app.apparent {
            "apparent"
        } else {
            "disk"
        },
    );
    left
}

/// The footer.
pub fn footer(app: &App, width: u16) -> (r: String)
    ensures
        r@ == footer_text(app@, width as nat),
{
    match &app.prompt {
        Some(prompt) => {
            let mut text = cat3(" ", prompt.label.as_str(), " ");
            text.append(prompt.input.as_str());
            return text;
        },
        None => {},
    }
    match &app.status {
        Some(status) => {
            return cat2(" ", status.as_str());
        },
        None => {},
    }
    if app.stale {
        return String::from_str(" the listing is from before the commit; rerun ccdu to rescan");
    }
    let left = listing_words(app);
    let hint = "space mark  d delete  m move  u unstage  p plan  ? help  q quit ";
    let (a, b): (usize, usize) = (left.as_str().unicode_len(), hint.unicode_len());
    let width: usize = width as usize;
    if a <= width && b <= width - a {
        let pad = repeated(' ', width - a - b);
        cat3(left.as_str(), pad.as_str(), hint)
    } else {
        left
    }
}

// ---------------------------------------------------------------------------------------------
// Overlays

/// What sort of thing an entry is.
pub open spec fn kind_text(f: u16) -> Seq<char> {
    if flag_set(f, flags::SYMLINK) {
        "symlink"@
    } else if flag_set(f, flags::DIR) {
        "directory"@
    } else if flag_set(f, flags::OTHER) {
        "special file"@
    } else {
        "file"@
    }
}

/// A labelled value.
pub open spec fn field_note(label: Seq<char>, value: Seq<char>) -> Seq<char> {
    " "@ + pad_right(label, 12) + value
}

fn field(label: &str, value: &str) -> (r: String)
    ensures
        r@ == field_note(label@, value@),
{
    let label = padded_right(label, 12);
    cat3(" ", label.as_str(), value)
}

/// Lines of text.
pub open spec fn texts(lines: Seq<String>) -> Seq<Seq<char>> {
    lines.map_values(|s: String| s@)
}

pub(crate) fn put_text(lines: &mut Vec<String>, text: String)
    ensures
        texts(final(lines)@) == texts(old(lines)@).push(text@),
{
    let ghost before = lines@;
    lines.push(text);
    proof {
        assert(texts(lines@) =~= texts(before).push(text@));
    }
}

/// What is known of an entry.
pub open spec fn info_texts(t: Tree, id: NodeId) -> Seq<Seq<char>> {
    let node = t.nodes()[id as int];
    let always = seq![
        field_note("path"@, shown(t.spec_path(id))),
        field_note("type"@, kind_text(node.flags)),
        field_note("disk usage"@, size_text(node.disk as nat)),
        field_note("apparent"@, size_text(node.apparent as nat)),
        field_note("modified"@, time_text(node.mtime as int)),
    ];
    let items = if node.carries(flags::DIR) {
        seq![field_note("items"@, grouped(node.items as nat))]
    } else {
        Seq::empty()
    };
    let note = match note_on(node.flags) {
        Some(text) => seq![field_note("note"@, text)],
        None => Seq::empty(),
    };
    always + items + note
}

/// What is known of the entry under the cursor, if there is one.
pub fn info(app: &App) -> (r: Vec<String>)
    requires
        app.wf(),
    ensures
        texts(r@) == (match app@.chosen() {
            Some(id) => info_texts(*app.tree, id),
            None => Seq::empty(),
        }),
{
    let mut lines: Vec<String> = Vec::new();
    proof {
        assert(texts(lines@) =~= Seq::empty());
    }
    let id: NodeId = match app.selected() {
        Some(id) => id,
        None => {
            return lines;
        },
    };
    proof {
        assert(app.tree.holds(app@.rows[app@.cursor as int]));
    }
    let node = app.tree.node(id);
    let path = show(app.path_to(id).as_slice());
    put_text(&mut lines, field("path", path.as_str()));
    let kind = if node.has(flags::SYMLINK) {
        "symlink"
    } else if node.is_dir() {
        "directory"
    } else if node.has(flags::OTHER) {
        "special file"
    } else {
        "file"
    };
    put_text(&mut lines, field("type", kind));
    put_text(&mut lines, field("disk usage", human_size(node.disk).as_str()));
    put_text(&mut lines, field("apparent", human_size(node.apparent).as_str()));
    put_text(&mut lines, field("modified", format_time(node.mtime).as_str()));
    if node.is_dir() {
        put_text(&mut lines, field("items", human_count(node.items as u64).as_str()));
    }
    match annotation(node.flags) {
        Some(note) => put_text(&mut lines, field("note", note)),
        None => {},
    }
    proof {
        assert(texts(lines@) =~= info_texts(*app.tree, id));
    }
    lines
}

/// The keys, and what each of them does.
pub open spec fn key_texts() -> Seq<(Seq<char>, Seq<char>)> {
    seq![
        ("↑ ↓ j k"@, "move the cursor"@),
        ("PgUp PgDn"@, "move a page"@),
        ("Home End"@, "first / last entry"@),
        ("⏎ → l"@, "open the selected directory"@),
        ("← h Backspace"@, "go to the parent directory"@),
        ("s"@, "sort by size (again to reverse)"@),
        ("n"@, "sort by name"@),
        ("C"@, "sort by item count"@),
        ("M"@, "sort by modification time"@),
        ("a"@, "toggle apparent size vs disk usage"@),
        ("g"@, "cycle graph: bar, percent, both, off"@),
        ("i"@, "show details for the selected entry"@),
        ("t"@, "show a treemap beside the listing"@),
        ("D"@, "find duplicate files"@),
        ("Space"@, "mark an entry"@),
        ("d m u"@, "stage a deletion, a move, or unstage"@),
        ("p w c"@, "review the plan, write it out, commit"@),
        ("q Esc"@, "quit"@),
    ]
}

/// Pairs of texts.
pub open spec fn pair_texts(pairs: Seq<(String, String)>) -> Seq<(Seq<char>, Seq<char>)> {
    pairs.map_values(|p: (String, String)| (p.0@, p.1@))
}

fn put_key(keys: &mut Vec<(String, String)>, key: &str, what: &str)
    ensures
        pair_texts(final(keys)@) == pair_texts(old(keys)@).push((key@, what@)),
{
    let ghost before = keys@;
    keys.push((String::from_str(key), String::from_str(what)));
    proof {
        assert(pair_texts(keys@) =~= pair_texts(before).push((key@, what@)));
    }
}

/// The keys, and what each of them does.
pub fn help() -> (r: Vec<(String, String)>)
    ensures
        pair_texts(r@) == key_texts(),
{
    let mut keys: Vec<(String, String)> = Vec::new();
    put_key(&mut keys, "↑ ↓ j k", "move the cursor");
    put_key(&mut keys, "PgUp PgDn", "move a page");
    put_key(&mut keys, "Home End", "first / last entry");
    put_key(&mut keys, "⏎ → l", "open the selected directory");
    put_key(&mut keys, "← h Backspace", "go to the parent directory");
    put_key(&mut keys, "s", "sort by size (again to reverse)");
    put_key(&mut keys, "n", "sort by name");
    put_key(&mut keys, "C", "sort by item count");
    put_key(&mut keys, "M", "sort by modification time");
    put_key(&mut keys, "a", "toggle apparent size vs disk usage");
    put_key(&mut keys, "g", "cycle graph: bar, percent, both, off");
    put_key(&mut keys, "i", "show details for the selected entry");
    put_key(&mut keys, "t", "show a treemap beside the listing");
    put_key(&mut keys, "D", "find duplicate files");
    put_key(&mut keys, "Space", "mark an entry");
    put_key(&mut keys, "d m u", "stage a deletion, a move, or unstage");
    put_key(&mut keys, "p w c", "review the plan, write it out, commit");
    put_key(&mut keys, "q Esc", "quit");
    proof {
        assert(pair_texts(keys@) =~= key_texts());
    }
    keys
}

/// A part of the screen.
#[derive(Clone, Copy, Debug, PartialEq, Eq, Structural)]
pub struct Area {
    pub x: u16,
    pub y: u16,
    pub width: u16,
    pub height: u16,
}

/// A `w` by `h` rectangle in the middle of `area`, clamped to fit.
pub fn centered(area: Area, w: u16, h: u16) -> (r: Area)
    requires
        area.x + area.width <= u16::MAX,
        area.y + area.height <= u16::MAX,
    ensures
        r.width == (if w <= area.width {
            w
        } else {
            area.width
        }),
        r.height == (if h <= area.height {
            h
        } else {
            area.height
        }),
        r.x == area.x + (area.width - r.width) / 2,
        r.y == area.y + (area.height - r.height) / 2,
{
    let w: u16 = if w <= area.width {
        w
    } else {
        area.width
    };
    let h: u16 = if h <= area.height {
        h
    } else {
        area.height
    };
    Area {
        x: area.x + (area.width - w) / 2,
        y: area.y + (area.height - h) / 2,
        width: w,
        height: h,
    }
}

// ---------------------------------------------------------------------------------------------
// Other screens

/// What turns while something is going on.
pub fn spinner(tick: usize) -> (r: char)
    ensures
        r == seq!['|', '/', '-', '\\'][tick as int % 4],
{
    match tick % 4 {
        0 => '|',
        1 => '/',
        2 => '-',
        _ => '\\',
    }
}

/// How far a scan has got.
pub fn scan_text(p: &Progress) -> (r: String)
    ensures
        r@ == grouped(p.entries as nat) + " entries in "@ + grouped(p.dirs as nat)
            + " directories, "@ + size_text(p.disk as nat),
{
    let entries = human_count(p.entries);
    let dirs = human_count(p.dirs);
    let mut text = cat3(entries.as_str(), " entries in ", dirs.as_str());
    text.append(" directories, ");
    text.append(human_size(p.disk).as_str());
    text
}

/// How far a search for duplicates has got.
pub fn hunt_text(p: &DupProgress) -> (r: String)
    ensures
        r@ == " looking for duplicates   "@ + dec(p.hashed as nat) + " of "@ + dec(
            p.candidates as nat,
        ) + " files, "@ + size_text(p.bytes_read as nat) + " read"@,
{
    let hashed = decimal(p.hashed as u64);
    let candidates = decimal(p.candidates as u64);
    let mut text = cat3(" looking for duplicates   ", hashed.as_str(), " of ");
    text.append(candidates.as_str());
    text.append(" files, ");
    text.append(human_size(p.bytes_read).as_str());
    text.append(" read");
    text
}

/// What is written in a tile of the treemap: the name, inside a border, where there is room for
/// one.
pub open spec fn label_in(name: Seq<char>, width: nat, height: nat) -> Option<Seq<char>> {
    if width >= 3 && height >= 3 {
        Some(tail_of(name, (width - 2) as nat))
    } else {
        None
    }
}

/// What is written in a tile. A tile too small for a border is only filled in.
pub fn tile_label(name: &str, width: u16, height: u16) -> (r: Option<String>)
    ensures
        match r {
            Some(text) => label_in(name@, width as nat, height as nat) == Some(text@),
            None => label_in(name@, width as nat, height as nat) is None,
        },
{
    if width >= 3 && height >= 3 {
        Some(tail(name, width as usize - 2))
    } else {
        None
    }
}

/// The first line of the plan.
pub fn plan_title(ops: usize, reclaims: u64, moves: u64) -> (r: String)
    ensures
        r@ == " plan  "@ + dec(ops as nat) + " operations  reclaims "@ + size_text(
            reclaims as nat,
        ) + "  moves "@ + size_text(moves as nat),
{
    let n = decimal(ops as u64);
    let mut text = cat3(" plan  ", n.as_str(), " operations  reclaims ");
    text.append(human_size(reclaims).as_str());
    text.append("  moves ");
    text.append(human_size(moves).as_str());
    text
}

/// An operation as it is shown: a letter, a size and a path, then where it goes.
pub open spec fn op_texts(op: OpNote) -> Seq<Seq<char>> {
    let first = (if op.to is Some {
        " M "@
    } else {
        " D "@
    }) + pad_left(size_text(op.est_bytes as nat), ' ', 10) + "  "@ + shown(op.from);
    match op.to {
        Some(dst) => seq![first, repeat(' ', 14) + "→ "@ + shown(dst)],
        None => seq![first],
    }
}

pub fn op_lines(op: &Op) -> (r: Vec<String>)
    ensures
        texts(r@) == op_texts(op_note(*op)),
{
    let mut lines: Vec<String> = Vec::new();
    let size = human_size(op.est_bytes());
    let wide = padded(size.as_str(), ' ', 10);
    match op {
        Op::Delete { path, .. } => {
            let mut text = cat3(" D ", wide.as_str(), "  ");
            text.append(show(path.as_slice()).as_str());
            put_text(&mut lines, text);
        },
        Op::Move { src, dst, .. } => {
            let mut text = cat3(" M ", wide.as_str(), "  ");
            text.append(show(src.as_slice()).as_str());
            put_text(&mut lines, text);
            let gap = repeated(' ', 14);
            let to = show(dst.as_slice());
            put_text(&mut lines, cat3(gap.as_str(), "→ ", to.as_str()));
        },
    }
    proof {
        assert(texts(lines@) =~= op_texts(op_note(*op)));
    }
    lines
}

/// A path as seen from a directory that it is in.
pub open spec fn seen_from(path: Seq<u8>, dir: Seq<u8>) -> Seq<u8> {
    if dir.len() < path.len() && path.take(dir.len() as int) == dir {
        if path[dir.len() as int] == SEP {
            path.skip(dir.len() as int + 1)
        } else {
            path.skip(dir.len() as int)
        }
    } else {
        path
    }
}

fn relative(path: &Vec<u8>, dir: &[u8]) -> (r: Vec<u8>)
    ensures
        r@ == seen_from(path@, dir@),
{
    let n: usize = dir.len();
    let mut i: usize = 0;
    let mut from: usize = 0;
    if n < path.len() {
        while i < n && path[i] == dir[i]
            invariant
                i <= n,
                n == dir@.len(),
                n < path@.len(),
                forall|k: int| 0 <= k < i ==> path@[k] == dir@[k],
            decreases n - i,
        {
            i += 1;
        }
        if i == n {
            proof {
                assert(path@.take(n as int) =~= dir@);
            }
            from = if path[n] == SEP {
                n + 1
            } else {
                n
            };
        } else {
            proof {
                assert(path@.take(n as int)[i as int] != dir@[i as int]);
            }
        }
    }
    let mut out: Vec<u8> = Vec::new();
    let mut k: usize = from;
    while k < path.len()
        invariant
            from <= k <= path@.len(),
            out@ == path@.subrange(from as int, k as int),
        decreases path.len() - k,
    {
        out.push(path[k]);
        k += 1;
    }
    proof {
        assert(out@ =~= path@.skip(from as int));
        assert(path@.skip(0) =~= path@);
    }
    out
}

/// The first line of the list of duplicates.
pub fn dupes_title(groups: usize, wasted: u64) -> (r: String)
    ensures
        r@ == " duplicates   "@ + dec(groups as nat) + " groups  "@ + size_text(wasted as nat)
            + " reclaimable"@,
{
    let n = decimal(groups as u64);
    let mut text = cat3(" duplicates   ", n.as_str(), " groups  ");
    text.append(human_size(wasted).as_str());
    text.append(" reclaimable");
    text
}

/// A line of the list of duplicates. Copies of one file share everything but the tail of their
/// paths, so that is what is kept.
pub open spec fn dup_text(face: Face, row: int, width: nat) -> Seq<char> {
    let d = face.dupes->0;
    match d.rows[row] {
        DupRow::Header(g) => {
            let group = d.groups[g as int];
            " "@ + dec(group.nodes.len()) + " copies of "@ + size_text(group.size as nat)
                + "  — "@ + size_text(group.wasted) + " reclaimable"@
        },
        DupRow::File(g, id) => {
            let keep = if d.groups[g as int].nodes.len() > 0 && d.groups[g as int].nodes[0] == id {
                "   keep "@
            } else {
                "        "@
            };
            let path = shown(seen_from(face.tree.spec_path(id), face.tree.root()));
            let node = face.tree.nodes()[id as int];
            let note = if node.carries(flags::HARDLINK) || node.carries(flags::HARDLINK_DUP) {
                "  (hardlinked elsewhere)"@
            } else {
                ""@
            };
            let taken = keep.len() + note.len();
            let room: nat = if width > taken {
                (width - taken) as nat
            } else {
                0
            };
            keep + tail_of(path, room) + note
        },
    }
}

fn file_line(app: &App, keep: bool, id: NodeId, width: usize) -> (r: String)
    requires
        app.wf(),
        app.tree.holds(id),
    ensures
        ({
            let lead = if keep {
                "   keep "@
            } else {
                "        "@
            };
            let path = shown(seen_from(app.tree.spec_path(id), app.tree.root()));
            let node = app.tree.nodes()[id as int];
            let note = if node.carries(flags::HARDLINK) || node.carries(flags::HARDLINK_DUP) {
                "  (hardlinked elsewhere)"@
            } else {
                ""@
            };
            let taken = lead.len() + note.len();
            let room: nat = if width > taken {
                (width - taken) as nat
            } else {
                0
            };
            r@ == lead + tail_of(path, room) + note
        }),
{
    let lead = if keep {
        "   keep "
    } else {
        "        "
    };
    let note = if shares_inode(&app.tree, id) {
        "  (hardlinked elsewhere)"
    } else {
        ""
    };
    let full = app.path_to(id);
    let path = show(relative(&full, app.tree.root_path()).as_slice());
    let (a, b): (usize, usize) = (lead.unicode_len(), note.unicode_len());
    let room: usize = if width > a && width - a > b {
        width - a - b
    } else {
        0
    };
    let short = tail(path.as_str(), room);
    cat3(lead, short.as_str(), note)
}

/// A line of the list of duplicates.
pub fn dup_line(app: &App, row: usize, width: u16) -> (r: String)
    requires
        app.wf(),
        app.dupes is Some,
        row < app.dupes->0.rows@.len(),
    ensures
        r@ == dup_text(app@, row as int, width as nat),
{
    let d = match &app.dupes {
        Some(d) => d,
        None => {
            return String::new();
        },
    };
    proof {
        assert(app@.dupes == Some(d@));
        assert(d@.wf(*app.tree));
        assert(d@.rows[row as int] == d.rows@[row as int]);
    }
    match d.rows[row] {
        DupRow::Header(g) => {
            let group = &d.groups[g];
            proof {
                assert(d@.groups[g as int] == group@);
            }
            let n = decimal(group.nodes.len() as u64);
            let size = human_size(group.size);
            let mut text = cat3(" ", n.as_str(), " copies of ");
            text.append(size.as_str());
            text.append("  — ");
            text.append(human_size(group.wasted).as_str());
            text.append(" reclaimable");
            text
        },
        DupRow::File(g, id) => {
            proof {
                assert(g < d@.groups.len() && app.tree.holds(id));
                assert(d@.groups[g as int] == d.groups@[g as int]@);
            }
            let group = &d.groups[g];
            let keep = group.nodes.len() > 0 && group.nodes[0] == id;
            file_line(app, keep, id, width as usize)
        },
    }
}

} // verus!
