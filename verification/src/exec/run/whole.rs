//! What a commit ends in, however often it was interrupted.
//!
//! A commit is the runs of one plan over one journal, from the first to the one that ends it. What
//! it does to a disk is said here of any kind of disk, and of operations that may touch one
//! another; what the operations themselves do, a deletion and a move, is said where they are.

use vstd::prelude::*;

use super::{lemma_log_push, stands_before, Run};
use crate::exec::journal::{Event, Record};
use crate::exec::{begun, ended, events_of, record_of, run_state, tally, RunState};
use crate::plan::Ident;

verus! {

/// How an operation came to a stop.
pub enum End {
    /// It was done, having freed this much.
    Done(u64),
    /// Someone asked to stop, after it had freed this much.
    Paused(u64),
    /// It could not be done.
    Failed(String),
    /// The run was cut off.
    Cut,
}

/// What the operations of a plan do to a disk, each spoken of by its index.
#[verifier::reject_recursive_types(D)]
pub struct Effects<D> {
    /// Whether an operation that is not interrupted can turn the first disk into the second.
    pub clean: spec_fn(usize, D, D) -> bool,
    /// The most an operation that is not interrupted frees.
    pub frees: spec_fn(usize, D) -> nat,
    /// Whether an operation begun on the first disk can have left the second, with this on record
    /// as about to be published, after it had freed so much.
    pub mid: spec_fn(usize, D, D, Option<Ident>, nat) -> bool,
    /// Whether carrying out an operation can end so, from one disk to another: strictly or not,
    /// told what was on record, and leaving that on record.
    pub carries: spec_fn(usize, bool, Option<Ident>, D, End, D, Option<Ident>) -> bool,
}

/// Whether an operation can be taken up again wherever it was left, any number of times: it does not
/// fail, it ends as if it had never been interrupted, and it frees no more than that.
///
/// It is carried out strictly only where it was never begun, and told what is on record.
pub open spec fn is_resumable<D>(fx: Effects<D>, op: usize) -> bool {
    &&& forall|s: D, t: D, record: Option<Ident>, freed: nat| #[trigger]
        (fx.mid)(op, s, t, record, freed) ==> freed <= (fx.frees)(op, s)
    &&& forall|
        s: D,
        t: D,
        record: Option<Ident>,
        freed: nat,
        strict: bool,
        end: End,
        after: D,
        on_record: Option<Ident>,
    |
        #![trigger (fx.mid)(op, s, t, record, freed), (fx.carries)(op, strict, record, t, end, after, on_record)]
        (fx.mid)(op, s, t, record, freed) && (fx.carries)(
            op,
            strict,
            record,
            t,
            end,
            after,
            on_record,
        ) && (strict ==> t == s && record is None && freed == 0) ==> match end {
            End::Done(more) => (fx.clean)(op, s, after) && (fx.mid)(
                op,
                s,
                after,
                on_record,
                freed + more as nat,
            ),
            End::Paused(more) => (fx.mid)(op, s, after, on_record, freed + more as nat),
            End::Failed(_) => false,
            End::Cut => exists|sum: nat| #[trigger]
                (fx.mid)(op, s, after, on_record, sum) && sum >= freed,
        }
}

/// Disks that a run which is never interrupted leaves one after the other, by the order in which it
/// carries out its operations.
pub open spec fn is_clean_run<D>(fx: Effects<D>, order: Seq<usize>, disks: Seq<D>) -> bool {
    &&& 0 < disks.len() <= order.len() + 1
    &&& forall|j: int|
        0 <= j < disks.len() - 1 ==> (fx.clean)(#[trigger] order[j], disks[j], disks[j + 1])
}

/// What a run that is never interrupted frees by its first `n` operations at most.
pub open spec fn clean_freed<D>(fx: Effects<D>, order: Seq<usize>, disks: Seq<D>, n: int) -> nat
    decreases n,
{
    if n <= 0 {
        0
    } else {
        clean_freed(fx, order, disks, n - 1) + (fx.frees)(order[n - 1], disks[n - 1])
    }
}

/// Whether a run that is never interrupted does not fail: each operation can be begun on what the
/// ones before it leave.
pub open spec fn goes_well<D>(fx: Effects<D>, order: Seq<usize>, disk: D) -> bool {
    forall|disks: Seq<D>| #[trigger]
        is_clean_run(fx, order, disks) && disks[0] == disk && disks.len() <= order.len()
            ==> (fx.mid)(order[disks.len() - 1], disks.last(), disks.last(), None, 0)
}

/// A commit at some moment: what the journal holds, and what the disk does.
pub struct Moment<D> {
    pub log: Seq<Event>,
    pub disk: D,
}

/// What takes a commit from one moment to the next.
pub enum Happening {
    /// A run begins or ends, or stops before an operation.
    Note(Event),
    /// An operation has its turn. It puts on record what it is about to publish, and comes to a
    /// stop; what came of it is put in the journal, or the run is cut off before that.
    Turn { op: usize, entries: Seq<Ident>, end: End, noted: bool },
}

/// Whether it is an operation's turn: it is the first that the journal holds no completion for.
pub open spec fn is_next(order: Seq<usize>, log: Seq<Event>, op: usize) -> bool {
    exists|k: int|
        {
            &&& 0 <= k < order.len()
            &&& #[trigger] order[k] == op
            &&& !ended(log).contains(op)
            &&& forall|j: int| 0 <= j < k ==> ended(log).contains(#[trigger] order[j])
        }
}

/// The journal once an operation has begun, and put on record what it was about to publish.
pub open spec fn log_with(log: Seq<Event>, op: usize, entries: Seq<Ident>) -> Seq<Event> {
    log.push(Event::OpBegin { op }) + entries.map_values(
        |entry: Ident| Event::Published { op, entry },
    )
}

/// Whether the commit goes from one moment to the next by that happening.
pub open spec fn follows<D>(
    fx: Effects<D>,
    order: Seq<usize>,
    a: Moment<D>,
    h: Happening,
    b: Moment<D>,
) -> bool {
    match h {
        Happening::Note(e) => {
            &&& e is RunBegin || e is RunEnd || (e matches Event::Paused { freed, .. } && freed
                == 0)
            &&& b.disk == a.disk
            &&& b.log == a.log.push(e)
        },
        Happening::Turn { op, entries, end, noted } => {
            let log = log_with(a.log, op, entries);
            &&& is_next(order, a.log, op)
            // Where nothing was carried out yet the disk is as it was.
            &&& (fx.carries)(
                op,
                !begun(a.log).contains(op),
                record_of(a.log, op),
                a.disk,
                end,
                b.disk,
                record_of(log, op),
            ) || (end is Cut && entries.len() == 0 && b.disk == a.disk)
            &&& if noted {
                match end {
                    End::Done(freed) => b.log == log.push(Event::OpDone { op, freed }),
                    End::Paused(freed) => b.log == log.push(Event::Paused { at: op, freed }),
                    End::Failed(error) => b.log == log.push(Event::OpFailed { op, error }),
                    End::Cut => false,
                }
            } else {
                b.log == log
            }
        },
    }
}

/// Whether a commit is where a run that is never interrupted passes by: after as many operations as
/// are completed, or part way through the next one.
pub open spec fn is_on_course<D>(
    fx: Effects<D>,
    order: Seq<usize>,
    now: Moment<D>,
    disks: Seq<D>,
    freed: nat,
) -> bool {
    let k = disks.len() - 1;
    &&& is_clean_run(fx, order, disks)
    &&& forall|op: usize| #[trigger] ended(now.log).contains(op) <==> stands_before(order, k, op)
    &&& forall|op: usize| #[trigger]
        begun(now.log).contains(op) ==> stands_before(order, k, op) || k < order.len() && op
            == order[k]
    &&& forall|op: usize| (#[trigger] record_of(now.log, op)) is Some ==> begun(now.log).contains(op)
    &&& tally(now.log).failed == 0
    &&& tally(now.log).skipped == 0
    &&& tally(now.log).done == k
    &&& tally(now.log).freed <= clean_freed(fx, order, disks, k) + freed
    &&& k == order.len() ==> now.disk == disks.last() && freed == 0
    &&& k < order.len() ==> (fx.mid)(
        order[k],
        disks.last(),
        now.disk,
        record_of(now.log, order[k]),
        freed,
    )
    &&& k < order.len() && !begun(now.log).contains(order[k]) ==> now.disk == disks.last() && freed
        == 0
}

proof fn lemma_log_with(log: Seq<Event>, op: usize, entries: Seq<Ident>)
    ensures
        ({
            let now = log_with(log, op, entries);
            &&& ended(now) == ended(log)
            &&& begun(now) == begun(log).insert(op)
            &&& tally(now) == tally(log)
            &&& forall|x: usize| x != op ==> #[trigger] record_of(now, x) == record_of(log, x)
            &&& entries.len() == 0 ==> record_of(now, op) == record_of(log, op)
        }),
    decreases entries.len(),
{
    let start = log.push(Event::OpBegin { op });
    let now = log_with(log, op, entries);
    lemma_log_push(log, Event::OpBegin { op });
    if entries.len() == 0 {
        assert(now =~= start);
        assert forall|x: usize| #[trigger] record_of(now, x) == record_of(log, x) by {}
    } else {
        let less = log_with(log, op, entries.drop_last());
        lemma_log_with(log, op, entries.drop_last());
        let e = Event::Published { op, entry: entries.last() };
        assert(now =~= less.push(e));
        lemma_log_push(less, e);
        assert forall|x: usize| x != op implies #[trigger] record_of(now, x) == record_of(
            log,
            x,
        ) by {
            assert(record_of(less, x) == record_of(log, x));
        }
    }
}

/// It is the turn of the operation after those that are completed.
proof fn lemma_next<D>(
    fx: Effects<D>,
    order: Seq<usize>,
    now: Moment<D>,
    disks: Seq<D>,
    freed: nat,
    op: usize,
)
    requires
        order.no_duplicates(),
        is_on_course(fx, order, now, disks, freed),
        is_next(order, now.log, op),
    ensures
        disks.len() - 1 < order.len(),
        op == order[disks.len() - 1],
{
    let k = disks.len() - 1;
    let i = choose|i: int|
        {
            &&& 0 <= i < order.len()
            &&& #[trigger] order[i] == op
            &&& !ended(now.log).contains(op)
            &&& forall|j: int| 0 <= j < i ==> ended(now.log).contains(#[trigger] order[j])
        };
    if i < k {
        assert(stands_before(order, k, op));
    }
    if i > k {
        assert(ended(now.log).contains(order[k]));
        let j = choose|j: int| 0 <= j < k && #[trigger] order[j] == order[k];
        assert(order[j] != order[k]);
    }
}

proof fn lemma_clean_freed<D>(fx: Effects<D>, order: Seq<usize>, disks: Seq<D>, d: D, n: int)
    requires
        0 <= n <= disks.len(),
    ensures
        clean_freed(fx, order, disks.push(d), n) == clean_freed(fx, order, disks, n),
    decreases n,
{
    if n > 0 {
        lemma_clean_freed(fx, order, disks, d, n - 1);
    }
}

/// Whatever happens to a commit, it stays on course.
proof fn lemma_stays_on_course<D>(
    fx: Effects<D>,
    order: Seq<usize>,
    a: Moment<D>,
    h: Happening,
    b: Moment<D>,
    disks: Seq<D>,
    freed: nat,
) -> (r: (Seq<D>, nat))
    requires
        order.no_duplicates(),
        forall|op: usize| #[trigger] order.contains(op) ==> is_resumable(fx, op),
        goes_well(fx, order, disks[0]),
        is_on_course(fx, order, a, disks, freed),
        follows(fx, order, a, h, b),
    ensures
        r.0[0] == disks[0],
        is_on_course(fx, order, b, r.0, r.1),
{
    let k = disks.len() - 1;
    match h {
        Happening::Note(e) => {
            lemma_log_push(a.log, e);
            assert forall|op: usize| #[trigger] record_of(b.log, op) == record_of(a.log, op) by {}
            (disks, freed)
        },
        Happening::Turn { op, entries, end, noted } => {
            let log = log_with(a.log, op, entries);
            let record = record_of(a.log, op);
            let on_record = record_of(log, op);
            let strict = !begun(a.log).contains(op);
            lemma_log_with(a.log, op, entries);
            lemma_next(fx, order, a, disks, freed, op);
            assert(order.contains(op));
            assert(is_resumable(fx, op));
            let s = disks.last();
            assert((fx.mid)(op, s, a.disk, record, freed));
            assert(record is Some ==> begun(a.log).contains(op));
            let nothing = end is Cut && entries.len() == 0 && b.disk == a.disk;
            // What has been freed by now, and is not forgotten.
            let sum: nat = match end {
                End::Done(more) => freed + more as nat,
                End::Paused(more) => freed + more as nat,
                End::Failed(_) => freed,
                End::Cut => if nothing {
                    freed
                } else {
                    choose|sum: nat| #[trigger]
                        (fx.mid)(op, s, b.disk, on_record, sum) && sum >= freed
                },
            };
            assert((fx.mid)(op, s, b.disk, on_record, sum));
            assert(!(end is Failed));
            if noted {
                let e = b.log.last();
                assert(b.log =~= log.push(e));
                lemma_log_push(log, e);
                assert forall|x: usize| #[trigger] record_of(b.log, x) == record_of(log, x) by {}
                if end is Done {
                    let now = disks.push(b.disk);
                    assert(now.last() == b.disk);
                    assert forall|j: int| 0 <= j < now.len() - 1 implies (fx.clean)(
                        #[trigger] order[j],
                        now[j],
                        now[j + 1],
                    ) by {
                        if j < k {
                            assert((fx.clean)(order[j], disks[j], disks[j + 1]));
                        }
                    }
                    assert(is_clean_run(fx, order, now));
                    lemma_clean_freed(fx, order, disks, b.disk, k);
                    assert(clean_freed(fx, order, now, k + 1) == clean_freed(fx, order, disks, k) + (
                    fx.frees)(op, s));
                    assert forall|x: usize| #[trigger] ended(b.log).contains(x) <==> stands_before(
                        order,
                        k + 1,
                        x,
                    ) by {
                        lemma_one_more(order, k, x);
                    }
                    assert forall|x: usize| #[trigger] begun(b.log).contains(x) implies stands_before(
                        order,
                        k + 1,
                        x,
                    ) by {
                        lemma_one_more(order, k, x);
                    }
                    if k + 1 < order.len() {
                        let next = order[k + 1];
                        if begun(b.log).contains(next) {
                            assert(stands_before(order, k + 1, next));
                            let j = choose|j: int| 0 <= j < k + 1 && #[trigger] order[j] == next;
                            assert(order[j] != order[k + 1]);
                        }
                        assert(record_of(b.log, next) is None);
                    }
                    (now, 0)
                } else {
                    (disks, sum)
                }
            } else {
                (disks, sum)
            }
        },
    }
}

proof fn lemma_one_more(order: Seq<usize>, k: int, x: usize)
    requires
        0 <= k < order.len(),
    ensures
        stands_before(order, k + 1, x) == (stands_before(order, k, x) || x == order[k]),
{
    if stands_before(order, k, x) {
        let j = choose|j: int| 0 <= j < k && #[trigger] order[j] == x;
        assert(order[j] == x);
    }
    if stands_before(order, k + 1, x) {
        let j = choose|j: int| 0 <= j < k + 1 && #[trigger] order[j] == x;
        assert(order[j] == x);
    }
}

/// However often a commit is interrupted, and wherever, it stays where a run that is never
/// interrupted passes by: the operations that are completed have left what that run leaves, the next
/// one is untouched or part way, nothing has failed, and no more has been freed.
pub proof fn law_a_commit_stays_on_course<D>(
    fx: Effects<D>,
    order: Seq<usize>,
    moments: Seq<Moment<D>>,
    happenings: Seq<Happening>,
) -> (r: (Seq<D>, nat))
    requires
        order.no_duplicates(),
        forall|op: usize| #[trigger] order.contains(op) ==> is_resumable(fx, op),
        moments.len() == happenings.len() + 1,
        moments[0].log == Seq::<Event>::empty(),
        goes_well(fx, order, moments[0].disk),
        forall|i: int|
            0 <= i < happenings.len() ==> follows(
                fx,
                order,
                moments[i],
                #[trigger] happenings[i],
                moments[i + 1],
            ),
    ensures
        r.0[0] == moments[0].disk,
        is_on_course(fx, order, moments.last(), r.0, r.1),
    decreases happenings.len(),
{
    if happenings.len() == 0 {
        let disks = seq![moments[0].disk];
        assert(is_clean_run(fx, order, disks));
        assert(disks.last() == moments[0].disk);
        (disks, 0)
    } else {
        let n = happenings.len() - 1;
        let before = moments.drop_last();
        let (disks, freed) = law_a_commit_stays_on_course(
            fx,
            order,
            before,
            happenings.drop_last(),
        );
        assert(before.last() == moments[n]);
        assert(follows(fx, order, moments[n], happenings[n], moments[n + 1]));
        lemma_stays_on_course(
            fx,
            order,
            moments[n],
            happenings[n],
            moments[n + 1],
            disks,
            freed,
        )
    }
}

/// Resuming ends as a clean run does: once the journal of a commit holds a completion for every
/// operation, however many runs that took and wherever they were cut off, the disk is what a run
/// leaves that is never interrupted, no operation has failed, every one is done, and no more was
/// freed than that run frees.
pub proof fn law_a_resumed_commit_ends_as_a_clean_one<D>(
    fx: Effects<D>,
    order: Seq<usize>,
    moments: Seq<Moment<D>>,
    happenings: Seq<Happening>,
) -> (disks: Seq<D>)
    requires
        order.no_duplicates(),
        forall|op: usize| #[trigger] order.contains(op) ==> is_resumable(fx, op),
        moments.len() == happenings.len() + 1,
        moments[0].log == Seq::<Event>::empty(),
        goes_well(fx, order, moments[0].disk),
        forall|i: int|
            0 <= i < happenings.len() ==> follows(
                fx,
                order,
                moments[i],
                #[trigger] happenings[i],
                moments[i + 1],
            ),
        forall|op: usize| #[trigger] order.contains(op) ==> ended(moments.last().log).contains(op),
    ensures
        is_clean_run(fx, order, disks),
        disks.len() == order.len() + 1,
        disks[0] == moments[0].disk,
        disks.last() == moments.last().disk,
        tally(moments.last().log).done == order.len(),
        tally(moments.last().log).failed == 0,
        tally(moments.last().log).skipped == 0,
        tally(moments.last().log).freed <= clean_freed(fx, order, disks, order.len() as int),
{
    let (disks, freed) = law_a_commit_stays_on_course(fx, order, moments, happenings);
    let k = disks.len() - 1;
    if k < order.len() {
        assert(order.contains(order[k]));
        let j = choose|j: int| 0 <= j < k && #[trigger] order[j] == order[k];
        assert(order[j] != order[k]);
    }
    disks
}

/// What a run asks for is what a commit goes on with: the operation whose turn it is, strictly where
/// it was never begun, and told what is on record.
pub proof fn law_a_run_goes_on_with_the_next_operation(run: Run)
    requires
        run.wf(),
        !run.dry_run,
        run.is_ready(),
        run.is_fresh(),
    ensures
        is_next(run.order@, run.log@, run.due()),
        run.in_flight@.contains(run.due()) == begun(run.log@).contains(run.due()),
        run.was_published(run.due()) == record_of(run.log@, run.due()),
{
    super::law_nothing_is_done_twice(run);
    assert forall|j: int| 0 <= j < run.pos implies ended(run.log@).contains(
        #[trigger] run.order@[j],
    ) by {
        assert(run.passed(run.order@[j]));
    }
    assert(run.order@[run.pos as int] == run.due());
}

/// The journal tells how a commit stands: a run that was cut off is interrupted, one that was
/// stopped is paused, and only one that went through all operations is finished.
pub proof fn law_the_journal_tells_how_a_run_stopped<D>(
    fx: Effects<D>,
    order: Seq<usize>,
    a: Moment<D>,
    h: Happening,
    b: Moment<D>,
    records: Seq<Record>,
)
    requires
        follows(fx, order, a, h, b),
        events_of(records) == b.log,
    ensures
        run_state(records) == (match h {
            Happening::Note(e) => if e is RunEnd {
                RunState::Finished
            } else if e is Paused {
                RunState::Paused
            } else {
                RunState::Interrupted
            },
            Happening::Turn { end, noted, .. } => if noted && end is Paused {
                RunState::Paused
            } else {
                RunState::Interrupted
            },
        }),
{
    assert(events_of(records).len() == records.len());
    assert(records.len() > 0) by {
        match h {
            Happening::Note(_) => {},
            Happening::Turn { op, entries, .. } => {
                assert(log_with(a.log, op, entries).len() > 0);
            },
        }
    }
    assert(b.log.last() == records.last().event);
    match h {
        Happening::Note(_) => {},
        Happening::Turn { op, entries, .. } => {
            let log = log_with(a.log, op, entries);
            if entries.len() == 0 {
                assert(log =~= a.log.push(Event::OpBegin { op }));
            } else {
                assert(log.last() == Event::Published { op, entry: entries.last() });
            }
        },
    }
}

} // verus!
