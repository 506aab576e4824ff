//! The append-only execution journal.
//!
//! Every record is written and flushed to disk before the syscall it describes. That ordering is
//! the whole guarantee: the journal may claim an operation that never happened, but it can never
//! omit one that did. A resumed run re-checks reality, so a claim that turns out to be premature
//! costs one redundant check; the reverse would cost a file.

use vstd::prelude::*;

use crate::path::{join, joined};
use crate::plan::path_repr::utf8_text;
use crate::plan::Ident;
use crate::text::{cat2, dec, decimal, is_space, is_white, show, shown};

verus! {

pub const JOURNAL_FILE: &'static str = "journal.jsonl";

/// What a line ends with.
pub const NEWLINE: u8 = 10;

#[derive(Clone, Debug, PartialEq, Eq)]
pub struct Record {
    pub seq: u64,
    /// Unix seconds.
    pub ts: i64,
    pub event: Event,
}

#[derive(Clone, Debug, PartialEq, Eq)]
pub enum Event {
    RunBegin { plan: String, pid: u32, ops: usize },
    OpBegin { op: usize },
    /// A move is about to give its finished copy, `entry`, its real name. Anything else that is
    /// found under that name is not the move's own.
    Published { op: usize, entry: Ident },
    OpDone { op: usize, freed: u64 },
    OpFailed { op: usize, error: String },
    OpSkipped { op: usize, reason: String },
    /// Stopped part way. `freed` is what the unfinished operation had already reclaimed, which
    /// the resumed run cannot measure because those entries are already gone.
    Paused { at: usize, freed: u64 },
    RunEnd { done: usize, failed: usize, skipped: usize, freed: u64 },
}

impl Event {
    pub open spec fn spec_op(&self) -> Option<usize> {
        match self {
            Event::OpBegin { op } => Some(*op),
            Event::Published { op, .. } => Some(*op),
            Event::OpDone { op, .. } => Some(*op),
            Event::OpFailed { op, .. } => Some(*op),
            Event::OpSkipped { op, .. } => Some(*op),
            _ => None,
        }
    }

    /// Whether the operation reached a state that is not revisited.
    pub open spec fn ends_op(&self) -> bool {
        self is OpDone || self is OpFailed || self is OpSkipped
    }

    /// The operation this record concerns, if any.
    pub fn op(&self) -> (r: Option<usize>)
        ensures
            r == self.spec_op(),
    {
        match self {
            Event::OpBegin { op } => Some(*op),
            Event::Published { op, .. } => Some(*op),
            Event::OpDone { op, .. } => Some(*op),
            Event::OpFailed { op, .. } => Some(*op),
            Event::OpSkipped { op, .. } => Some(*op),
            _ => None,
        }
    }

    /// True when the operation reached a state a resumed run should not revisit.
    pub fn is_terminal(&self) -> (r: bool)
        ensures
            r == self.ends_op(),
    {
        match self {
            Event::OpDone { .. } => true,
            Event::OpFailed { .. } => true,
            Event::OpSkipped { .. } => true,
            _ => false,
        }
    }
}

/// Where the journal of a plan directory is.
pub open spec fn file_in(dir: Seq<u8>) -> Seq<u8> {
    joined(dir, vstd::utf8::encode_utf8(JOURNAL_FILE@))
}

/// The sequence number a journal has reached.
pub open spec fn reached(records: Seq<Record>) -> u64 {
    if records.len() == 0 {
        0
    } else {
        records.last().seq
    }
}

/// A journal, positioned at the end.
pub struct Journal {
    pub path: Vec<u8>,
    pub seq: u64,
}

impl Journal {
    /// The journal in `dir`, continuing the sequence already recorded there.
    pub fn open(dir: &[u8], records: &Vec<Record>) -> (r: Journal)
        ensures
            r.path@ == file_in(dir@),
            r.seq == reached(records@),
    {
        let seq: u64 = if records.len() == 0 {
            0
        } else {
            records[records.len() - 1].seq
        };
        Journal { path: join(dir, JOURNAL_FILE.as_bytes()), seq }
    }

    pub fn path(&self) -> (r: &[u8])
        ensures
            r@ == self.path@,
    {
        self.path.as_slice()
    }

    /// The next record, to be written and flushed to stable storage before anything else happens.
    pub fn append(&mut self, ts: i64, event: Event) -> (r: Record)
        requires
            old(self).seq < u64::MAX,
        ensures
            r == (Record { seq: (old(self).seq + 1) as u64, ts, event }),
            final(self).seq == old(self).seq + 1,
            final(self).path == old(self).path,
    {
        self.seq = self.seq + 1;
        Record { seq: self.seq, ts, event }
    }
}

/// One line of a journal file, as far as it could be made out.
#[derive(Debug)]
pub enum Line {
    /// Nothing but white space.
    Blank,
    Good(Record),
    /// Not a record; why not.
    Bad(String),
}

/// The records among some lines, in order.
pub open spec fn records_in(lines: Seq<Line>) -> Seq<Record>
    decreases lines.len(),
{
    if lines.len() == 0 {
        Seq::empty()
    } else {
        match lines.last() {
            Line::Good(record) => records_in(lines.drop_last()).push(record),
            _ => records_in(lines.drop_last()),
        }
    }
}

/// The first bad line that is not the last one, or the end.
pub open spec fn corrupt_at(lines: Seq<Line>, i: int) -> int
    decreases lines.len() - i,
{
    if i < 0 || i + 1 >= lines.len() {
        lines.len() as int
    } else if lines[i] is Bad {
        i
    } else {
        corrupt_at(lines, i + 1)
    }
}

proof fn lemma_corrupt_range(lines: Seq<Line>, i: int)
    requires
        0 <= i,
    ensures
        corrupt_at(lines, i) == lines.len() || i <= corrupt_at(lines, i) < lines.len() - 1,
        forall|j: int| i <= j < corrupt_at(lines, i) && j + 1 < lines.len() ==> !(#[trigger] lines[j]
            is Bad),
    decreases lines.len() - i,
{
    if i + 1 < lines.len() && !(lines[i] is Bad) {
        lemma_corrupt_range(lines, i + 1);
    }
}

/// Read a journal, tolerating a torn final line.
///
/// A crash while writing can leave the last line incomplete. That line describes something that
/// had not happened yet, so dropping it is correct. A malformed line anywhere else means real
/// corruption and is reported rather than guessed at.
pub fn read(path: &[u8], lines: Vec<Line>) -> (r: Result<Vec<Record>, String>)
    ensures
        match r {
            Ok(records) => corrupt_at(lines@, 0) == lines@.len() && records@ == records_in(lines@),
            Err(e) => {
                let k = corrupt_at(lines@, 0);
                &&& k < lines@.len()
                &&& e@ == shown(path@) + ": line "@ + dec((k + 1) as nat) + ": "@
                    + lines@[k]->Bad_0@
            },
        },
{
    let ghost all = lines@;
    let total: usize = lines.len();
    let mut out: Vec<Record> = Vec::new();
    let mut n: usize = 0;
    proof {
        assert(all.take(0) =~= Seq::<Line>::empty());
    }
    for line in it: lines
        invariant
            it.seq() == all,
            n == it.index(),
            total == all.len(),
            out@ == records_in(all.take(n as int)),
            corrupt_at(all, 0) == corrupt_at(all, n as int),
    {
        proof {
            assert(all.take(n + 1).drop_last() =~= all.take(n as int));
            assert(line == all[n as int]);
        }
        match line {
            Line::Blank => {},
            Line::Good(record) => {
                out.push(record);
            },
            Line::Bad(e) => {
                if n + 1 != total {
                    let shown_path = show(path);
                    let mut text = cat2(shown_path.as_str(), ": line ");
                    let at = decimal((n + 1) as u64);
                    text.append(at.as_str());
                    text.append(": ");
                    text.append(e.as_str());
                    return Err(text);
                }
            },
        }
        n += 1;
    }
    proof {
        assert(all.take(n as int) =~= all);
        lemma_corrupt_range(all, 0);
    }
    Ok(out)
}

/// Read the journal of a plan directory.
pub fn read_dir(dir: &[u8], lines: Vec<Line>) -> (r: Result<Vec<Record>, String>)
    ensures
        match r {
            Ok(records) => corrupt_at(lines@, 0) == lines@.len() && records@ == records_in(lines@),
            Err(e) => {
                let k = corrupt_at(lines@, 0);
                &&& k < lines@.len()
                &&& e@ == shown(file_in(dir@)) + ": line "@ + dec((k + 1) as nat) + ": "@
                    + lines@[k]->Bad_0@
            },
        },
{
    let path = join(dir, JOURNAL_FILE.as_bytes());
    read(path.as_slice(), lines)
}

/// A torn final line takes nothing with it: the journal reads as it did before that line was
/// begun.
pub proof fn law_torn_tail_is_dropped(lines: Seq<Line>, why: String)
    requires
        forall|i: int| 0 <= i < lines.len() ==> !(#[trigger] lines[i] is Bad),
    ensures
        corrupt_at(lines.push(Line::Bad(why)), 0) == lines.len() + 1,
        records_in(lines.push(Line::Bad(why))) == records_in(lines),
{
    let torn = lines.push(Line::Bad(why));
    assert(torn.drop_last() =~= lines);
    lemma_corrupt_range(torn, 0);
    let k = corrupt_at(torn, 0);
    if k < torn.len() {
        lemma_corrupt_is_bad(torn, 0);
        assert(torn[k] == lines[k]);
    }
}

proof fn lemma_corrupt_is_bad(lines: Seq<Line>, i: int)
    requires
        0 <= i,
        corrupt_at(lines, i) < lines.len(),
    ensures
        lines[corrupt_at(lines, i)] is Bad,
    decreases lines.len() - i,
{
    if i + 1 < lines.len() && !(lines[i] is Bad) {
        lemma_corrupt_is_bad(lines, i + 1);
    }
}

/// Reopening a journal continues its sequence.
pub proof fn law_sequence_continues(records: Seq<Record>, next: Record)
    requires
        reached(records) < u64::MAX,
        next.seq == reached(records) + 1,
    ensures
        reached(records.push(next)) == reached(records) + 1,
{
}

/// Where the line starts that ends at `end`.
pub open spec fn line_start(raw: Seq<u8>, end: int) -> int
    decreases end,
{
    if end <= 0 || raw[end - 1] == NEWLINE {
        end
    } else {
        line_start(raw, end - 1)
    }
}

/// Where the last line of some bytes ends, its newline aside.
pub open spec fn last_end(raw: Seq<u8>) -> int {
    if raw.len() > 0 && raw.last() == NEWLINE {
        raw.len() - 1
    } else {
        raw.len() as int
    }
}

/// Where the last line of some bytes starts.
pub open spec fn last_start(raw: Seq<u8>) -> int {
    line_start(raw, last_end(raw))
}

proof fn lemma_line_start(raw: Seq<u8>, end: int)
    requires
        0 <= end <= raw.len(),
    ensures
        0 <= line_start(raw, end) <= end,
        line_start(raw, end) > 0 ==> raw[line_start(raw, end) - 1] == NEWLINE,
        forall|k: int| line_start(raw, end) <= k < end ==> raw[k] != NEWLINE,
    decreases end,
{
    if end > 0 && raw[end - 1] != NEWLINE {
        lemma_line_start(raw, end - 1);
    }
}

/// A line starts where the one before it ended.
proof fn lemma_starts_at(raw: Seq<u8>, start: int, end: int)
    requires
        0 <= start <= end <= raw.len(),
        start > 0 ==> raw[start - 1] == NEWLINE,
        forall|k: int| start <= k < end ==> raw[k] != NEWLINE,
    ensures
        line_start(raw, end) == start,
    decreases end,
{
    if end > start {
        lemma_starts_at(raw, start, end - 1);
    }
}

/// The lines that some bytes hold. The last one need not have its end.
pub open spec fn lines_of(raw: Seq<u8>) -> Seq<Seq<u8>>
    decreases raw.len(),
{
    if raw.len() == 0 {
        Seq::empty()
    } else {
        proof {
            lemma_last_start(raw);
        }
        lines_of(raw.take(last_start(raw))).push(raw.subrange(last_start(raw), last_end(raw)))
    }
}

pub proof fn lemma_last_start(raw: Seq<u8>)
    requires
        raw.len() > 0,
    ensures
        0 <= last_start(raw) <= last_end(raw) <= raw.len(),
        last_start(raw) < raw.len(),
        last_start(raw) > 0 ==> raw[last_start(raw) - 1] == NEWLINE,
{
    lemma_line_start(raw, last_end(raw));
    if last_end(raw) == raw.len() {
        assert(raw[raw.len() - 1] != NEWLINE);
    }
}

/// One more line is one more line, whether or not it has its end.
proof fn lemma_one_more_line(raw: Seq<u8>, line: Seq<u8>)
    requires
        raw.len() > 0 ==> raw.last() == NEWLINE,
        !line.contains(NEWLINE),
    ensures
        lines_of(raw + line.push(NEWLINE)) == lines_of(raw).push(line),
        line.len() > 0 ==> lines_of(raw + line) == lines_of(raw).push(line),
{
    assert forall|k: int| 0 <= k < line.len() implies line[k] != NEWLINE by {
        assert(line.contains(line[k]));
    }
    let whole = raw + line.push(NEWLINE);
    lemma_last_start(whole);
    assert(last_end(whole) == raw.len() + line.len());
    lemma_starts_at(whole, raw.len() as int, last_end(whole));
    assert(whole.take(raw.len() as int) =~= raw);
    assert(whole.subrange(raw.len() as int, last_end(whole)) =~= line);
    if line.len() > 0 {
        let part = raw + line;
        lemma_last_start(part);
        assert(part.last() == line.last());
        assert(last_end(part) == part.len());
        lemma_starts_at(part, raw.len() as int, last_end(part));
        assert(part.take(raw.len() as int) =~= raw);
        assert(part.subrange(raw.len() as int, last_end(part)) =~= line);
    }
}

pub open spec fn line_views(lines: Seq<Vec<u8>>) -> Seq<Seq<u8>> {
    lines.map_values(|l: Vec<u8>| l@)
}

/// Take a journal file apart. A torn line can end inside a character, so a line need not be text.
pub fn split_lines(raw: &[u8]) -> (r: Vec<Vec<u8>>)
    ensures
        line_views(r@) == lines_of(raw@),
{
    let mut out: Vec<Vec<u8>> = Vec::new();
    let mut line: Vec<u8> = Vec::new();
    let mut i: usize = 0;
    let ghost mut done: int = 0;
    proof {
        assert(raw@.take(0) =~= Seq::<u8>::empty());
        assert(line_views(out@) =~= lines_of(raw@.take(0)));
        assert(line@ =~= raw@.subrange(0, 0));
    }
    while i < raw.len()
        invariant
            0 <= done <= i <= raw@.len(),
            done > 0 ==> raw@[done - 1] == NEWLINE,
            line@ == raw@.subrange(done, i as int),
            !line@.contains(NEWLINE),
            line_views(out@) == lines_of(raw@.take(done)),
        decreases raw.len() - i,
    {
        let b: u8 = raw[i];
        let ghost before = line@;
        if b == NEWLINE {
            let ghost views = line_views(out@);
            let mut full: Vec<u8> = Vec::new();
            std::mem::swap(&mut full, &mut line);
            out.push(full);
            proof {
                lemma_one_more_line(raw@.take(done), before);
                assert(raw@.take(done) + before.push(NEWLINE) =~= raw@.take(i + 1));
                assert(line_views(out@) =~= views.push(before));
                done = i + 1;
                assert(line@ =~= raw@.subrange(done, i + 1));
            }
        } else {
            line.push(b);
            proof {
                assert(line@ =~= raw@.subrange(done, i + 1));
                assert forall|k: int| 0 <= k < line@.len() implies line@[k] != NEWLINE by {
                    if k < before.len() {
                        assert(before.contains(before[k]));
                    }
                }
            }
        }
        i += 1;
    }
    if line.len() > 0 {
        let ghost views = line_views(out@);
        let ghost last = line@;
        out.push(line);
        proof {
            lemma_one_more_line(raw@.take(done), last);
            assert(raw@.take(done) + last =~= raw@);
            assert(line_views(out@) =~= views.push(last));
        }
    } else {
        proof {
            assert(raw@.take(done) =~= raw@);
        }
    }
    out
}

/// Whether a line holds nothing but white space.
pub open spec fn is_blank(line: Seq<u8>) -> bool {
    vstd::utf8::valid_utf8(line) && forall|k: int|
        0 <= k < vstd::utf8::decode_utf8(line).len() ==> is_space(
            #[trigger] vstd::utf8::decode_utf8(line)[k],
        )
}

pub fn blank(line: &[u8]) -> (r: bool)
    ensures
        r == is_blank(line@),
{
    match utf8_text(line) {
        None => false,
        Some(text) => {
            proof {
                vstd::utf8::encode_utf8_valid_utf8(text@);
                vstd::utf8::encode_utf8_decode_utf8(text@);
            }
            let s = text.as_str();
            let n: usize = s.unicode_len();
            let mut i: usize = 0;
            while i < n
                invariant
                    i <= n,
                    n == s@.len(),
                    s@ == vstd::utf8::decode_utf8(line@),
                    forall|k: int| 0 <= k < i ==> is_space(#[trigger] s@[k]),
                decreases n - i,
            {
                if !is_white(s.get_char(i)) {
                    proof {
                        assert(!is_space(s@[i as int]));
                    }
                    return false;
                }
                i += 1;
            }
            true
        },
    }
}

/// What has to be done to the end of a journal before more is added to it. A torn line that was
/// left there would run into the next one, and be taken for corruption from then on.
#[derive(Clone, Copy, Debug, PartialEq, Eq, Structural)]
pub enum Mend {
    Nothing,
    /// The last line is whole but for its end.
    EndLine,
    /// The last line is torn: only so many bytes are to be kept.
    DropLine { keep: usize },
}

/// `lines` is what could be made out of the lines of `raw`.
pub open spec fn mending(raw: Seq<u8>, lines: Seq<Line>) -> Mend {
    if raw.len() == 0 || lines.len() == 0 {
        Mend::Nothing
    } else if lines.last() is Bad {
        Mend::DropLine { keep: last_start(raw) as usize }
    } else if raw.last() == NEWLINE {
        Mend::Nothing
    } else {
        Mend::EndLine
    }
}

pub fn mend(raw: &[u8], lines: &Vec<Line>) -> (r: Mend)
    ensures
        r == mending(raw@, lines@),
{
    if raw.len() == 0 || lines.len() == 0 {
        return Mend::Nothing;
    }
    let ended = raw[raw.len() - 1] == NEWLINE;
    match &lines[lines.len() - 1] {
        Line::Bad(_) => {
            let mut keep: usize = if ended {
                raw.len() - 1
            } else {
                raw.len()
            };
            while keep > 0 && raw[keep - 1] != NEWLINE
                invariant
                    keep <= raw@.len(),
                    line_start(raw@, keep as int) == last_start(raw@),
                decreases keep,
            {
                keep -= 1;
            }
            Mend::DropLine { keep }
        },
        _ => if ended {
            Mend::Nothing
        } else {
            Mend::EndLine
        },
    }
}

/// The bytes once the end has been mended.
pub open spec fn mended_bytes(raw: Seq<u8>, lines: Seq<Line>) -> Seq<u8> {
    match mending(raw, lines) {
        Mend::Nothing => raw,
        Mend::EndLine => raw.push(NEWLINE),
        Mend::DropLine { keep } => raw.take(keep as int),
    }
}

/// The lines once the end has been mended.
pub open spec fn mended(lines: Seq<Line>) -> Seq<Line> {
    if lines.len() > 0 && lines.last() is Bad {
        lines.drop_last()
    } else {
        lines
    }
}

/// Mending takes the torn line away and no other, and what is added after it is a line of its own.
pub proof fn law_a_mended_file_takes_more_lines(raw: Seq<u8>, lines: Seq<Line>, line: Seq<u8>)
    requires
        raw.len() <= usize::MAX,
        lines.len() == lines_of(raw).len(),
        !line.contains(NEWLINE),
    ensures
        lines_of(mended_bytes(raw, lines)) == lines_of(raw).take(mended(lines).len() as int),
        lines_of(mended_bytes(raw, lines) + line.push(NEWLINE)) == lines_of(raw).take(
            mended(lines).len() as int,
        ).push(line),
{
    let kept = mended_bytes(raw, lines);
    if raw.len() == 0 {
        assert(kept =~= raw);
        assert(lines_of(raw).take(0) =~= lines_of(raw));
    } else {
        lemma_last_start(raw);
        let before = raw.take(last_start(raw));
        let last = raw.subrange(last_start(raw), last_end(raw));
        lemma_line_start(raw, last_end(raw));
        assert(!last.contains(NEWLINE));
        assert(lines_of(raw) == lines_of(before).push(last));
        assert(before.len() > 0 ==> before.last() == NEWLINE);
        if lines.last() is Bad {
            assert(kept =~= before);
            assert(lines_of(raw).take(lines.len() - 1) =~= lines_of(before));
        } else {
            lemma_one_more_line(before, last);
            assert(kept =~= before + last.push(NEWLINE));
            assert(lines_of(raw).take(lines.len() as int) =~= lines_of(raw));
        }
    }
    lemma_one_more_line(kept, line);
}

pub open spec fn good_lines(records: Seq<Record>) -> Seq<Line> {
    records.map_values(|r: Record| Line::Good(r))
}

proof fn lemma_good_lines(lines: Seq<Line>, more: Seq<Record>)
    ensures
        records_in(lines + good_lines(more)) == records_in(lines) + more,
    decreases more.len(),
{
    let all = lines + good_lines(more);
    if more.len() == 0 {
        assert(all =~= lines);
        assert(records_in(lines) + more =~= records_in(lines));
    } else {
        let less = more.drop_last();
        lemma_good_lines(lines, less);
        assert(all.drop_last() =~= lines + good_lines(less));
        assert(all.last() == Line::Good(more.last()));
        assert(records_in(lines) + more =~= (records_in(lines) + less).push(more.last()));
    }
}

/// A journal that could be read goes on being readable, however it was cut off: with its end
/// mended and more records added it holds what it held, then those.
pub proof fn law_a_mended_journal_goes_on(lines: Seq<Line>, more: Seq<Record>)
    requires
        corrupt_at(lines, 0) == lines.len(),
    ensures
        ({
            let all = mended(lines) + good_lines(more);
            &&& corrupt_at(all, 0) == all.len()
            &&& records_in(all) == records_in(lines) + more
        }),
{
    let kept = mended(lines);
    let all = kept + good_lines(more);
    lemma_good_lines(kept, more);
    lemma_corrupt_range(lines, 0);
    assert forall|i: int| 0 <= i < all.len() implies !(#[trigger] all[i] is Bad) by {
        if i < kept.len() {
            assert(all[i] == lines[i]);
            assert(i + 1 < lines.len() || lines[i] == lines.last());
        }
    }
    lemma_corrupt_range(all, 0);
    if corrupt_at(all, 0) < all.len() {
        lemma_corrupt_is_bad(all, 0);
    }
}

} // verus!
