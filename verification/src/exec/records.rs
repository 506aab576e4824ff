//! What a journal says, told off its records.

use vstd::prelude::*;

use crate::exec::journal::{
    corrupt_at, lines_of, reached, records_in, Event, Line, Record, NEWLINE,
};
use crate::exec::run::{in_journal, recorded, Act};
use crate::exec::{
    begun, difference_text, ended, published, record_of, run_ranks, run_state, still_matches, tally, RunState,
};
use crate::order::{comes_first, is_order};
use crate::path::components;
use crate::plan::{EntryKind, Ident, Op};

verus! {

/// An operation was begun exactly where a record says so.
pub proof fn law_what_was_begun(events: Seq<Event>, op: usize)
    ensures
        begun(events).contains(op) == exists|i: int|
            0 <= i < events.len() && #[trigger] events[i] == (Event::OpBegin { op }),
    decreases events.len(),
{
    if events.len() > 0 {
        let rest = events.drop_last();
        law_what_was_begun(rest, op);
        if exists|i: int| 0 <= i < events.len() && #[trigger] events[i] == (Event::OpBegin { op }) {
            let i = choose|i: int|
                0 <= i < events.len() && #[trigger] events[i] == (Event::OpBegin { op });
            if i < rest.len() {
                assert(rest[i] == events[i]);
            }
        }
        if begun(rest).contains(op) {
            let i = choose|i: int|
                0 <= i < rest.len() && #[trigger] rest[i] == (Event::OpBegin { op });
            assert(events[i] == rest[i]);
        }
    }
}

/// Whether a record says that an operation is over: that it was done, that it failed or that it was
/// passed over.
pub open spec fn is_over(event: Event, op: usize) -> bool {
    ||| event matches Event::OpDone { op: o, .. } && o == op
    ||| event matches Event::OpFailed { op: o, .. } && o == op
    ||| event matches Event::OpSkipped { op: o, .. } && o == op
}

/// An operation is over exactly where a record says so.
pub proof fn law_what_is_over(events: Seq<Event>, op: usize)
    ensures
        ended(events).contains(op) == exists|i: int|
            0 <= i < events.len() && is_over(#[trigger] events[i], op),
    decreases events.len(),
{
    if events.len() > 0 {
        let rest = events.drop_last();
        law_what_is_over(rest, op);
        if exists|i: int| 0 <= i < events.len() && is_over(#[trigger] events[i], op) {
            let i = choose|i: int| 0 <= i < events.len() && is_over(#[trigger] events[i], op);
            if i < rest.len() {
                assert(rest[i] == events[i]);
            }
        }
        if ended(rest).contains(op) {
            let i = choose|i: int| 0 <= i < rest.len() && is_over(#[trigger] rest[i], op);
            assert(events[i] == rest[i]);
        }
    }
}

/// Of the copies that an operation was about to publish, the one that counts is the last on record.
pub proof fn law_the_last_copy_counts(events: Seq<Event>, op: usize, i: int, entry: Ident)
    requires
        0 <= i < events.len(),
        events[i] == (Event::Published { op, entry }),
        forall|j: int|
            i < j < events.len() ==> !(#[trigger] events[j] matches Event::Published { op: o, .. }
                && o == op),
    ensures
        record_of(events, op) == Some(entry),
        published(events).contains_key(op),
        published(events)[op] == entry,
    decreases events.len(),
{
    if i < events.len() - 1 {
        let rest = events.drop_last();
        assert(rest[i] == events[i]);
        assert forall|j: int| i < j < rest.len() implies !(
        #[trigger] rest[j] matches Event::Published { op: o, .. } && o == op) by {
            assert(rest[j] == events[j]);
        }
        assert(!(events[events.len() - 1] matches Event::Published { op: o, .. } && o == op));
        law_the_last_copy_counts(rest, op, i, entry);
    }
}

/// Where no copy is on record there is none.
pub proof fn law_no_copy_is_made_up(events: Seq<Event>, op: usize)
    requires
        forall|j: int|
            0 <= j < events.len() ==> !(#[trigger] events[j] matches Event::Published { op: o, .. }
                && o == op),
    ensures
        record_of(events, op) is None,
        !published(events).contains_key(op),
    decreases events.len(),
{
    if events.len() > 0 {
        let rest = events.drop_last();
        assert forall|j: int| 0 <= j < rest.len() implies !(
        #[trigger] rest[j] matches Event::Published { op: o, .. } && o == op) by {
            assert(rest[j] == events[j]);
        }
        assert(!(events[events.len() - 1] matches Event::Published { op: o, .. } && o == op));
        law_no_copy_is_made_up(rest, op);
    }
}

/// What each record adds to the totals: an operation that is over counts once, as what it ended as,
/// and what was reclaimed is what was reclaimed by what was done and by what was stopped part way.
pub proof fn law_what_a_record_adds(event: Event)
    ensures
        ({
            let t = tally(seq![event]);
            match event {
                Event::OpDone { freed, .. } => t.done == 1 && t.failed == 0 && t.skipped == 0
                    && t.freed == freed,
                Event::OpFailed { .. } => t.done == 0 && t.failed == 1 && t.skipped == 0 && t.freed
                    == 0,
                Event::OpSkipped { .. } => t.done == 0 && t.failed == 0 && t.skipped == 1 && t.freed
                    == 0,
                Event::Paused { freed, .. } => t.done == 0 && t.failed == 0 && t.skipped == 0
                    && t.freed == freed,
                _ => t.done == 0 && t.failed == 0 && t.skipped == 0 && t.freed == 0,
            }
        }),
{
    assert(seq![event].drop_last() =~= Seq::<Event>::empty());
    assert(tally(Seq::<Event>::empty()).freed == 0);
}

/// Two journals in a row say together what each of them says.
pub proof fn law_totals_add_up(a: Seq<Event>, b: Seq<Event>)
    ensures
        tally(a + b).done == tally(a).done + tally(b).done,
        tally(a + b).failed == tally(a).failed + tally(b).failed,
        tally(a + b).skipped == tally(a).skipped + tally(b).skipped,
        tally(a + b).freed == tally(a).freed + tally(b).freed,
    decreases b.len(),
{
    if b.len() == 0 {
        assert(a + b =~= a);
    } else {
        assert((a + b).drop_last() =~= a + b.drop_last());
        law_totals_add_up(a, b.drop_last());
    }
}

/// A run is over once its end is on record, stands still once it was paused, and was otherwise cut
/// off, whatever it was about.
pub proof fn law_how_a_run_stands(records: Seq<Record>)
    ensures
        (run_state(records) == RunState::NotStarted) == (records.len() == 0),
        (run_state(records) == RunState::Finished) == (records.len() > 0 && records[records.len()
            - 1].event is RunEnd),
        (run_state(records) == RunState::Paused) == (records.len() > 0 && records[records.len()
            - 1].event is Paused),
{
}

/// Where an operation that nothing has begun must be what was staged to the last, one that was begun
/// must still be the same object.
pub proof fn law_what_may_have_changed(staged: Ident, now: Ident)
    ensures
        still_matches(staged, now, true) == (staged == now),
        still_matches(staged, now, false) == (now == (Ident {
            size: now.size,
            mtime: now.mtime,
            ..staged
        })),
{
}

/// Operations are run moves first, and among those of a kind the ones whose path has most components
/// first; where that leaves it open they keep their order. Each is run once.
pub proof fn law_the_order_of_operations(ops: Seq<Op>, order: Seq<int>, i: int, j: int)
    requires
        is_order(run_ranks(ops), order),
        forall|k: int|
            0 <= k < ops.len() ==> components(
                (match #[trigger] ops[k] {
                    Op::Delete { path, .. } => path,
                    Op::Move { src, .. } => src,
                })@,
            ).len() <= u64::MAX,
        0 <= i < j < order.len(),
    ensures
        order.len() == ops.len(),
        0 <= order[i] < ops.len(),
        order[i] != order[j],
        match (ops[order[i]], ops[order[j]]) {
            (Op::Move { .. }, Op::Delete { .. }) => true,
            (Op::Delete { .. }, Op::Move { .. }) => false,
            (Op::Delete { path: a, .. }, Op::Delete { path: b, .. }) => {
                ||| components(a@).len() > components(b@).len()
                ||| components(a@).len() == components(b@).len() && order[i] < order[j]
            },
            (Op::Move { src: a, .. }, Op::Move { src: b, .. }) => {
                ||| components(a@).len() > components(b@).len()
                ||| components(a@).len() == components(b@).len() && order[i] < order[j]
            },
        },
{
    let ranks = run_ranks(ops);
    assert(comes_first(ranks, order[i], order[j]));
    assert(0 <= order[i] < ops.len() && 0 <= order[j] < ops.len());
    let (a, b) = (ops[order[i]], ops[order[j]]);
    assert(ranks[order[i]] == run_ranks(ops)[order[i]]);
    assert(ranks[order[j]] == run_ranks(ops)[order[j]]);
}

/// A journal can be read exactly where every line but the last can be made out.
pub proof fn law_only_the_last_line_may_be_torn(lines: Seq<Line>)
    ensures
        (corrupt_at(lines, 0) < lines.len()) == exists|i: int|
            0 <= i < lines.len() - 1 && #[trigger] lines[i] is Bad,
{
    lemma_corrupt(lines, 0);
}

proof fn lemma_corrupt(lines: Seq<Line>, k: int)
    requires
        0 <= k,
    ensures
        corrupt_at(lines, k) <= lines.len(),
        (corrupt_at(lines, k) < lines.len()) == exists|i: int|
            k <= i < lines.len() - 1 && #[trigger] lines[i] is Bad,
    decreases lines.len() - k,
{
    if k + 1 < lines.len() {
        lemma_corrupt(lines, k + 1);
        if exists|i: int| k <= i < lines.len() - 1 && #[trigger] lines[i] is Bad {
            let i = choose|i: int| k <= i < lines.len() - 1 && #[trigger] lines[i] is Bad;
            if i > k {
                assert(lines[i] is Bad);
            }
        }
    }
}

/// Every line that can be made out gives its record, in the order of the lines, and no other does.
pub proof fn law_records_are_taken_line_by_line(a: Seq<Line>, b: Seq<Line>, line: Line)
    ensures
        records_in(a + b) == records_in(a) + records_in(b),
        line matches Line::Good(record) ==> records_in(seq![line]) == seq![record],
        !(line is Good) ==> records_in(seq![line]).len() == 0,
    decreases b.len(),
{
    assert(seq![line].drop_last() =~= Seq::<Line>::empty());
    assert(records_in(Seq::<Line>::empty()) =~= Seq::<Record>::empty());
    if b.len() == 0 {
        assert(a + b =~= a);
        assert(records_in(a + b) =~= records_in(a) + records_in(b));
    } else {
        assert((a + b).drop_last() =~= a + b.drop_last());
        law_records_are_taken_line_by_line(a, b.drop_last(), line);
        assert(records_in(a + b) =~= records_in(a) + records_in(b));
    }
}

/// What lines spell with a newline after each of them.
pub open spec fn spelled(lines: Seq<Seq<u8>>) -> Seq<u8>
    decreases lines.len(),
{
    if lines.len() == 0 {
        Seq::empty()
    } else {
        spelled(lines.drop_last()) + lines.last() + seq![10u8]
    }
}

/// The lines of a file, with a newline after each, spell the file, but for the newline that the last
/// of them may lack. No line holds one.
pub proof fn law_lines_spell_the_file(raw: Seq<u8>)
    ensures
        raw.len() == 0 || raw[raw.len() - 1] == 10 ==> spelled(lines_of(raw)) == raw,
        raw.len() > 0 && raw[raw.len() - 1] != 10 ==> spelled(lines_of(raw)) == raw + seq![10u8],
        forall|i: int, k: int|
            0 <= i < lines_of(raw).len() && 0 <= k < lines_of(raw)[i].len()
                ==> #[trigger] lines_of(raw)[i][k] != 10,
    decreases raw.len(),
{
    if raw.len() > 0 {
        let (s, e) = (
            crate::exec::journal::last_start(raw),
            crate::exec::journal::last_end(raw),
        );
        lemma_start(raw, e);
        let head = raw.take(s);
        law_lines_spell_the_file(head);
        let lines = lines_of(raw);
        assert(lines.drop_last() =~= lines_of(head));
        assert(lines.last() == raw.subrange(s, e));
        if s > 0 {
            assert(head[head.len() - 1] == raw[s - 1]);
        }
        assert(spelled(lines_of(head)) =~= head);
        assert(spelled(lines) =~= head + raw.subrange(s, e) + seq![10u8]);
        if raw[raw.len() - 1] == 10 {
            assert(head + raw.subrange(s, e) + seq![10u8] =~= raw);
        } else {
            assert(head + raw.subrange(s, e) =~= raw);
        }
        assert forall|i: int, k: int|
            0 <= i < lines.len() && 0 <= k < lines[i].len() implies #[trigger] lines[i][k] != 10 by {
            if i < lines.len() - 1 {
                assert(lines[i] == lines_of(head)[i]);
                assert(lines_of(head)[i][k] != 10);
            } else {
                assert(lines[i][k] == raw[s + k]);
            }
        }
    }
}

proof fn lemma_start(raw: Seq<u8>, e: int)
    requires
        0 <= e <= raw.len(),
    ensures
        ({
            let s = crate::exec::journal::line_start(raw, e);
            &&& 0 <= s <= e
            &&& s == 0 || raw[s - 1] == NEWLINE
            &&& forall|k: int| s <= k < e ==> raw[k] != NEWLINE
        }),
    decreases e,
{
    if e > 0 && raw[e - 1] != NEWLINE {
        lemma_start(raw, e - 1);
    }
}

/// What is to be put on record is put on record in the order it comes in, and nothing else is.
pub proof fn law_what_is_put_on_record(a: Seq<Act>, b: Seq<Act>, act: Act)
    ensures
        recorded(a + b) == recorded(a) + recorded(b),
        act matches Act::Record(event) ==> recorded(seq![act]) == seq![event],
        !(act is Record) ==> recorded(seq![act]).len() == 0,
    decreases b.len(),
{
    assert(seq![act].drop_last() =~= Seq::<Act>::empty());
    assert(recorded(Seq::<Act>::empty()) =~= Seq::<Event>::empty());
    if b.len() == 0 {
        assert(a + b =~= a);
        assert(recorded(a + b) =~= recorded(a) + recorded(b));
    } else {
        assert((a + b).drop_last() =~= a + b.drop_last());
        law_what_is_put_on_record(a, b.drop_last(), act);
        assert(recorded(a + b) =~= recorded(a) + recorded(b));
    }
}

/// What has become of an entry that is not what was staged is told by what is different first: which
/// entry it is, what kind it is, and only then what is in it.
pub proof fn law_what_is_said_to_be_different(staged: Ident, now: Ident)
    ensures
        staged.dev != now.dev || staged.ino != now.ino ==> difference_text(staged, now)
            == "a different file now occupies this path"@,
        staged.dev == now.dev && staged.ino == now.ino && staged.kind != now.kind
            ==> difference_text(staged, now) == "now a "@ + match now.kind {
            EntryKind::Dir => "dir"@,
            EntryKind::File => "file"@,
            EntryKind::Symlink => "symlink"@,
            EntryKind::Other => "other"@,
        },
        staged.dev == now.dev && staged.ino == now.ino && staged.kind == now.kind
            ==> difference_text(staged, now) == "it has been modified since it was staged"@,
{
}

/// A journal has reached the number of its last record, and none before there is any.
pub proof fn law_where_a_journal_stands(records: Seq<Record>, last: Record)
    ensures
        reached(records.push(last)) == last.seq,
        reached(Seq::empty()) == 0,
{
}

/// Whatever happens in a run is put on record, and nothing of a dry run is.
pub proof fn law_only_a_dry_run_leaves_no_record(event: Event)
    ensures
        in_journal(false, event) == seq![Act::Record(event)],
        in_journal(true, event).len() == 0,
{
}

} // verus!
