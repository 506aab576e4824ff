//! Carrying out a plan, one operation at a time.
//!
//! A run hands out what is to be done, in order. The first thing that fails ends the run with its
//! error; what was recorded by then is what the next run starts from.

use std::collections::{HashMap, HashSet};

use vstd::prelude::*;

use crate::exec::journal::{Event, Record};
use crate::exec::{
    begun, counts, ended, ended_once, events_of, execution_order, published, record_of, replay,
    run_ranks, tally, ExecEvent, FaultPoint, Outcome, Replay,
};
use crate::order::{ints, is_order, lemma_order_complete, lemma_order_distinct};
use crate::plan::{Ident, Op, Plan};

pub mod resume;
pub mod whole;

verus! {

broadcast use vstd::std_specs::hash::group_hash_axioms;

/// One thing a run asks for.
#[derive(Debug)]
pub enum Act {
    /// Append this to the journal, and have it on disk before going on.
    Record(Event),
    /// A point at which the run may be interrupted.
    Fault(FaultPoint, usize),
    /// Tell whoever is watching.
    Tell(ExecEvent),
    /// Carry out the operation. Its identity is checked in full where `strict`.
    ///
    /// `published` is the finished copy that an earlier run was about to give its real name.
    Perform { index: usize, strict: bool, published: Option<Ident> },
}

/// The events that some acts put in the journal.
pub open spec fn recorded(acts: Seq<Act>) -> Seq<Event>
    decreases acts.len(),
{
    if acts.len() == 0 {
        Seq::empty()
    } else {
        match acts.last() {
            Act::Record(e) => recorded(acts.drop_last()).push(e),
            _ => recorded(acts.drop_last()),
        }
    }
}

/// What comes next in a run.
#[derive(Clone, Copy, Debug, PartialEq, Eq, Structural)]
pub enum Turn {
    /// This operation was completed by an earlier run.
    Skip(usize),
    /// This operation is next, unless someone has asked to stop.
    Ready(usize),
    /// Every operation has had its turn.
    Over,
}

/// What came of an operation.
#[derive(Debug)]
pub enum OpResult {
    Done(u64),
    /// Stopped part way, after reclaiming this much.
    Paused(u64),
    Failed(String),
}

/// Whether `op` is among the first `n` of `order`.
pub open spec fn stands_before(order: Seq<usize>, n: int, op: usize) -> bool {
    exists|k: int| 0 <= k < n && #[trigger] order[k] == op
}

/// A run of a plan.
pub struct Run {
    pub order: Vec<usize>,
    pub pos: usize,
    pub terminal: HashSet<usize>,
    pub in_flight: HashSet<usize>,
    pub published: HashMap<usize, Ident>,
    pub totals: Outcome,
    pub dry_run: bool,
    /// Everything the journal holds: what earlier runs recorded, then what this one did.
    pub log: Ghost<Seq<Event>>,
}

impl Run {
    /// Whether this run has dealt with an operation.
    pub open spec fn passed(&self, op: usize) -> bool {
        stands_before(self.order@, self.pos as int, op)
    }

    pub open spec fn wf(&self) -> bool {
        &&& self.pos <= self.order@.len()
        &&& self.order@.no_duplicates()
        &&& self.totals.done + self.totals.failed + self.totals.skipped + (self.order@.len()
            - self.pos) <= usize::MAX
        // What the journal says adds up to the totals, and holds a completion for exactly the
        // operations that are over.
        &&& !self.dry_run ==> counts(self.totals, tally(self.log@))
        &&& !self.dry_run ==> forall|op: usize| #[trigger]
            ended(self.log@).contains(op) == (self.terminal@.contains(op) || self.passed(op))
        // What has yet to have its turn is as the journal had it when the run began.
        &&& !self.dry_run ==> forall|op: usize| #[trigger]
            self.awaits_turn(op) ==> self.is_as_found(op)
    }

    /// Whether an operation comes after the one whose turn it is, and is not over.
    pub open spec fn awaits_turn(&self, op: usize) -> bool {
        &&& !self.terminal@.contains(op)
        &&& !self.passed(op)
        &&& self.pos < self.order@.len() ==> op != self.due()
    }

    /// Whether the journal says nothing more of an operation than it did when the run began.
    pub open spec fn is_as_found(&self, op: usize) -> bool {
        &&& begun(self.log@).contains(op) == self.in_flight@.contains(op)
        &&& record_of(self.log@, op) == self.was_published(op)
    }

    /// Whether the operation whose turn it is has not been set going by this run.
    pub open spec fn is_fresh(&self) -> bool {
        !self.dry_run && self.is_ready() ==> self.is_as_found(self.due())
    }

    /// The operation whose turn it is.
    pub open spec fn due(&self) -> usize {
        self.order@[self.pos as int]
    }

    /// Whether the operation whose turn it is has yet to be carried out.
    pub open spec fn is_ready(&self) -> bool {
        self.pos < self.order@.len() && !self.terminal@.contains(self.due())
    }

    /// The finished copy that an earlier run was about to publish for an operation.
    pub open spec fn was_published(&self, op: usize) -> Option<Ident> {
        if self.published@.contains_key(op) {
            Some(self.published@[op])
        } else {
            None
        }
    }

    pub open spec fn same_course(&self, other: Run) -> bool {
        &&& self.order == other.order
        &&& self.terminal == other.terminal
        &&& self.in_flight == other.in_flight
        &&& self.published == other.published
        &&& self.dry_run == other.dry_run
    }

    /// Begin a run, or take up one that stopped. `records` is what the journal holds.
    ///
    /// A dry run writes nothing, not even to the journal. Recording completions for work that did
    /// not happen would mark the plan as executed, and the real run afterwards would skip
    /// everything: a rehearsal must not count as the performance.
    pub fn begin(plan: &Plan, records: &Vec<Record>, dry_run: bool, pid: u32) -> (r: (
        Run,
        Vec<Act>,
    ))
        requires
            tally(events_of(records@)).freed <= u64::MAX,
            records@.len() + plan.ops@.len() <= usize::MAX,
        ensures
            r.0.wf(),
            r.0.dry_run == dry_run,
            r.0.pos == 0,
            is_order(run_ranks(plan.ops@), ints(r.0.order@)),
            r.0.order@.len() == plan.ops@.len(),
            forall|i: int| 0 <= i < r.0.order@.len() ==> #[trigger] r.0.order@[i] < plan.ops@.len(),
            r.0.terminal@ == ended(events_of(records@)),
            r.0.in_flight@ == begun(events_of(records@)).difference(ended(events_of(records@))),
            r.0.is_fresh(),
            r.0.published@ == published(events_of(records@)),
            counts(r.0.totals, tally(events_of(records@))),
            !r.0.totals.paused,
            r.0.log@ == events_of(records@) + recorded(r.1@),
            ended_once(events_of(records@)) ==> ended_once(r.0.log@),
            dry_run ==> r.1@.len() == 0,
            !dry_run ==> {
                &&& r.1@.len() == 1
                &&& r.1@[0] matches Act::Record(Event::RunBegin { plan: id, pid: p, ops })
                &&& id@ == plan.id@
                &&& p == pid
                &&& ops == plan.ops@.len()
            },
    {
        let Replay { terminal, in_flight, published, totals } = replay(records);
        let order = execution_order(plan);
        let ghost events = events_of(records@);
        proof {
            lemma_order_distinct(run_ranks(plan.ops@), ints(order@));
            assert forall|i: int, j: int|
                0 <= i < order@.len() && 0 <= j < order@.len() && i != j implies order@[i]
                != order@[j] by {
                assert(ints(order@)[i] != ints(order@)[j]);
            }
            crate::exec::lemma_tally_counts(events);
        }
        let mut acts: Vec<Act> = Vec::new();
        if !dry_run {
            acts.push(
                Act::Record(
                    Event::RunBegin { plan: plan.id.clone(), pid, ops: plan.ops.len() },
                ),
            );
        }
        let ghost log = events + recorded(acts@);
        proof {
            reveal_with_fuel(recorded, 2);
            if dry_run {
                assert(log =~= events);
            } else {
                assert(acts@.drop_last() =~= Seq::<Act>::empty());
                assert(log.drop_last() =~= events);
                assert(log.last() == acts@[0]->Record_0);
                lemma_log_push(events, acts@[0]->Record_0);
                assert(log =~= events.push(acts@[0]->Record_0));
            }
        }
        (
            Run {
                order,
                pos: 0,
                terminal,
                in_flight,
                published,
                totals,
                dry_run,
                log: Ghost(log),
            },
            acts,
        )
    }

    /// Whose turn it is. An operation that an earlier run completed is passed over.
    pub fn next(&mut self) -> (r: Turn)
        requires
            old(self).wf(),
        ensures
            final(self).wf(),
            final(self).same_course(*old(self)),
            final(self).totals == old(self).totals,
            final(self).log == old(self).log,
            r is Skip || old(self).is_fresh() ==> final(self).is_fresh(),
            r == (if old(self).pos == old(self).order@.len() {
                Turn::Over
            } else if old(self).terminal@.contains(old(self).due()) {
                Turn::Skip(old(self).due())
            } else {
                Turn::Ready(old(self).due())
            }),
            final(self).pos == (if r is Skip {
                old(self).pos + 1
            } else {
                old(self).pos as int
            }),
    {
        if self.pos == self.order.len() {
            return Turn::Over;
        }
        let index: usize = self.order[self.pos];
        if self.terminal.contains(&index) {
            self.pos = self.pos + 1;
            proof {
                self.lemma_passes(*old(self));
                self.lemma_turn(*old(self));
            }
            Turn::Skip(index)
        } else {
            Turn::Ready(index)
        }
    }

    proof fn lemma_passes(&self, before: Run)
        requires
            self.order == before.order,
            self.pos == before.pos + 1,
            self.pos <= self.order@.len(),
        ensures
            forall|op: usize| #[trigger]
                self.passed(op) == (before.passed(op) || op == before.due()),
    {
        assert forall|op: usize| #[trigger] self.passed(op) == (before.passed(op) || op
            == before.due()) by {
            if before.passed(op) {
                let k = choose|k: int| 0 <= k < before.pos && #[trigger] before.order@[k] == op;
                assert(self.order@[k] == op);
            }
            if op == before.due() {
                assert(self.order@[before.pos as int] == op);
            }
            if self.passed(op) {
                let k = choose|k: int| 0 <= k < self.pos && #[trigger] self.order@[k] == op;
                assert(before.order@[k] == op);
            }
        }
    }

    /// With the next operation's turn come, that one is as it was found.
    proof fn lemma_turn(&self, before: Run)
        requires
            before.wf(),
            before.pos < before.order@.len(),
            self.pos == before.pos + 1,
            self.same_course(before),
            forall|op: usize|
                op != before.due() ==> #[trigger] begun(self.log@).contains(op) == begun(
                    before.log@,
                ).contains(op),
            forall|op: usize|
                op != before.due() ==> #[trigger] record_of(self.log@, op) == record_of(
                    before.log@,
                    op,
                ),
        ensures
            self.is_fresh(),
            !self.dry_run ==> forall|op: usize| #[trigger]
                self.awaits_turn(op) ==> self.is_as_found(op),
    {
        self.lemma_passes(before);
        if self.pos < self.order@.len() {
            let due = self.due();
            assert(before.order@[before.pos as int] != before.order@[self.pos as int]);
            if before.passed(due) {
                let k = choose|k: int| 0 <= k < before.pos && #[trigger] before.order@[k] == due;
                assert(before.order@[k] != before.order@[self.pos as int]);
            }
            assert(!self.terminal@.contains(due) ==> before.awaits_turn(due));
        }
        assert forall|op: usize| !self.dry_run && #[trigger] self.awaits_turn(op) implies
            self.is_as_found(op) by {
            assert(before.awaits_turn(op));
        }
    }

    /// What is noted of the operation whose turn it is says nothing of the others.
    proof fn lemma_others_as_found(&self, before: Run)
        requires
            before.wf(),
            self.pos == before.pos,
            self.same_course(before),
            forall|op: usize|
                !(before.pos < before.order@.len() && op == before.due()) ==> #[trigger] begun(
                    self.log@,
                ).contains(op) == begun(before.log@).contains(op),
            forall|op: usize|
                !(before.pos < before.order@.len() && op == before.due()) ==> #[trigger] record_of(
                    self.log@,
                    op,
                ) == record_of(before.log@, op),
        ensures
            !self.dry_run ==> forall|op: usize| #[trigger]
                self.awaits_turn(op) ==> self.is_as_found(op),
    {
        assert forall|op: usize| !self.dry_run && #[trigger] self.awaits_turn(op) implies
            self.is_as_found(op) by {
            assert(before.awaits_turn(op));
        }
    }

    /// Set the operation whose turn it is going, or stop before it where `paused`.
    ///
    /// The intent is in the journal before the operation is carried out.
    pub fn start(&mut self, op: &Op, paused: bool) -> (acts: Vec<Act>)
        requires
            old(self).wf(),
            old(self).is_ready(),
        ensures
            final(self).wf(),
            final(self).same_course(*old(self)),
            final(self).pos == old(self).pos,
            final(self).log@ == old(self).log@ + recorded(acts@),
            ended_once(old(self).log@) ==> ended_once(final(self).log@),
            old(self).dry_run ==> recorded(acts@).len() == 0,
            final(self).totals == (Outcome {
                paused: old(self).totals.paused || paused,
                ..old(self).totals
            }),
            paused ==> acts@ == in_journal(
                old(self).dry_run,
                Event::Paused { at: old(self).due(), freed: 0 },
            ),
            !paused ==> {
                let i = old(self).due();
                let lead = seq![Act::Fault(FaultPoint::BeforeOpBegin, i)] + in_journal(
                    old(self).dry_run,
                    Event::OpBegin { op: i },
                ) + seq![Act::Fault(FaultPoint::AfterOpBegin, i)];
                let n = lead.len() as int;
                &&& acts@.len() == n + 2
                &&& acts@.take(n) == lead
                &&& acts@[n] matches Act::Tell(ExecEvent::Started { index, summary })
                &&& index == i
                &&& summary@ == op.summary_text()
                &&& acts@[n + 1] == (Act::Perform {
                    index: i,
                    strict: !old(self).in_flight@.contains(i),
                    published: old(self).was_published(i),
                })
            },
    {
        let index: usize = self.order[self.pos];
        let mut acts: Vec<Act> = Vec::new();
        let ghost log = self.log@;
        if paused {
            self.totals.paused = true;
            if !self.dry_run {
                let e = Event::Paused { at: index, freed: 0 };
                proof {
                    lemma_recorded_push(acts@, Act::Record(e));
                    lemma_log_push(log, e);
                    self.log@ = log.push(e);
                    assert(recorded(Seq::<Act>::empty()) =~= Seq::<Event>::empty());
                    assert(log + recorded(acts@.push(Act::Record(e))) =~= log.push(e));
                    self.lemma_others_as_found(*old(self));
                }
                acts.push(Act::Record(e));
            } else {
                proof {
                    assert(log + recorded(acts@) =~= log);
                }
            }
            return acts;
        }
        acts.push(Act::Fault(FaultPoint::BeforeOpBegin, index));
        let ghost first = acts@;
        if !self.dry_run {
            acts.push(Act::Record(Event::OpBegin { op: index }));
        }
        acts.push(Act::Fault(FaultPoint::AfterOpBegin, index));
        let ghost lead = acts@;
        acts.push(Act::Tell(ExecEvent::Started { index, summary: op.summary() }));
        let strict = !self.in_flight.contains(&index);
        let ghost told = acts@;
        let published = match self.published.get(&index) {
            Some(entry) => Some(*entry),
            None => None,
        };
        acts.push(Act::Perform { index, strict, published });
        proof {
            let none = Seq::<Act>::empty();
            lemma_recorded_push(none, Act::Fault(FaultPoint::BeforeOpBegin, index));
            assert(none.push(Act::Fault(FaultPoint::BeforeOpBegin, index)) =~= first);
            assert(recorded(none) =~= Seq::<Event>::empty());
            let e = Event::OpBegin { op: index };
            if !self.dry_run {
                lemma_recorded_push(first, Act::Record(e));
                lemma_recorded_push(
                    first.push(Act::Record(e)),
                    Act::Fault(FaultPoint::AfterOpBegin, index),
                );
                assert(recorded(lead) =~= seq![e]);
                lemma_log_push(log, e);
                self.log@ = log.push(e);
            } else {
                lemma_recorded_push(first, Act::Fault(FaultPoint::AfterOpBegin, index));
                assert(recorded(lead) =~= Seq::<Event>::empty());
            }
            self.lemma_others_as_found(*old(self));
            lemma_recorded_push(lead, told.last());
            lemma_recorded_push(told, acts@.last());
            assert(log + recorded(acts@) =~= self.log@);
            assert(acts@.take(lead.len() as int) =~= lead);
            assert(lead =~= seq![Act::Fault(FaultPoint::BeforeOpBegin, index)] + in_journal(
                self.dry_run,
                e,
            ) + seq![Act::Fault(FaultPoint::AfterOpBegin, index)]);
        }
        acts
    }

    /// Take note that the move whose turn it is has a finished copy and is about to give it its
    /// real name.
    pub fn publishing(&mut self, entry: Ident) -> (acts: Vec<Act>)
        requires
            old(self).wf(),
            old(self).is_ready(),
        ensures
            final(self).wf(),
            final(self).same_course(*old(self)),
            final(self).pos == old(self).pos,
            final(self).totals == old(self).totals,
            final(self).log@ == old(self).log@ + recorded(acts@),
            ended_once(old(self).log@) ==> ended_once(final(self).log@),
            acts@ == in_journal(
                old(self).dry_run,
                Event::Published { op: old(self).due(), entry },
            ),
    {
        let index: usize = self.order[self.pos];
        let mut acts: Vec<Act> = Vec::new();
        let ghost log = self.log@;
        let ghost e = Event::Published { op: index, entry };
        if !self.dry_run {
            acts.push(Act::Record(Event::Published { op: index, entry }));
        }
        proof {
            let none = Seq::<Act>::empty();
            assert(recorded(none) =~= Seq::<Event>::empty());
            if !self.dry_run {
                lemma_recorded_push(none, Act::Record(e));
                assert(acts@ =~= none.push(Act::Record(e)));
                assert(log + recorded(acts@) =~= log.push(e));
                lemma_log_push(log, e);
            } else {
                assert(log + recorded(acts@) =~= log);
            }
            self.log@ = log + recorded(acts@);
            self.lemma_others_as_found(*old(self));
        }
        acts
    }

    /// Take note of what came of the operation whose turn it was.
    ///
    /// A pause leaves no completion record: the operation is unfinished and will be redone. What
    /// it did reclaim is recorded on the pause instead, because the resumed run can only measure
    /// what is left.
    pub fn settle(&mut self, result: OpResult) -> (acts: Vec<Act>)
        requires
            old(self).wf(),
            old(self).is_ready(),
            result matches OpResult::Done(freed) ==> old(self).totals.freed + freed <= u64::MAX,
            result matches OpResult::Paused(freed) ==> old(self).totals.freed + freed <= u64::MAX,
        ensures
            final(self).wf(),
            final(self).same_course(*old(self)),
            final(self).log@ == old(self).log@ + recorded(acts@),
            ended_once(old(self).log@) ==> ended_once(final(self).log@),
            old(self).dry_run ==> recorded(acts@).len() == 0,
            final(self).pos == (if result is Paused {
                old(self).pos as int
            } else {
                old(self).pos + 1
            }),
            !(result is Paused) ==> final(self).is_fresh(),
            match result {
                OpResult::Done(freed) => {
                    let i = old(self).due();
                    &&& final(self).totals == (Outcome {
                        done: (old(self).totals.done + 1) as usize,
                        freed: (old(self).totals.freed + freed) as u64,
                        ..old(self).totals
                    })
                    &&& acts@ == seq![Act::Fault(FaultPoint::BeforeOpDone, i)] + in_journal(
                        old(self).dry_run,
                        Event::OpDone { op: i, freed },
                    ) + seq![
                        Act::Fault(FaultPoint::AfterOpDone, i),
                        Act::Tell(ExecEvent::Finished { index: i, freed }),
                    ]
                },
                OpResult::Paused(freed) => {
                    let i = old(self).due();
                    &&& final(self).totals == (Outcome {
                        freed: (old(self).totals.freed + freed) as u64,
                        paused: true,
                        ..old(self).totals
                    })
                    &&& acts@ == in_journal(
                        old(self).dry_run,
                        Event::Paused { at: i, freed },
                    )
                },
                OpResult::Failed(error) => {
                    let i = old(self).due();
                    let n: int = if old(self).dry_run {
                        0
                    } else {
                        1
                    };
                    &&& final(self).totals == (Outcome {
                        failed: (old(self).totals.failed + 1) as usize,
                        ..old(self).totals
                    })
                    &&& acts@.len() == n + 1
                    &&& !old(self).dry_run ==> {
                        &&& acts@[0] matches Act::Record(Event::OpFailed { op, error: e })
                        &&& op == i
                        &&& e@ == error@
                    }
                    &&& acts@[n] matches Act::Tell(ExecEvent::Failed { index, error: e })
                    &&& index == i
                    &&& e@ == error@
                },
            },
    {
        let index: usize = self.order[self.pos];
        let ghost log = self.log@;
        let ghost none = Seq::<Act>::empty();
        let mut acts: Vec<Act> = Vec::new();
        proof {
            if !self.dry_run {
                law_nothing_is_done_twice(*self);
            }
            assert(recorded(none) =~= Seq::<Event>::empty());
            assert(self.order.len() == self.order@.len());
        }
        match result {
            OpResult::Done(freed) => {
                let ghost e = Event::OpDone { op: index, freed };
                acts.push(Act::Fault(FaultPoint::BeforeOpDone, index));
                if !self.dry_run {
                    acts.push(Act::Record(Event::OpDone { op: index, freed }));
                }
                acts.push(Act::Fault(FaultPoint::AfterOpDone, index));
                acts.push(Act::Tell(ExecEvent::Finished { index, freed }));
                self.totals.done = self.totals.done + 1;
                self.totals.freed = self.totals.freed + freed;
                self.pos = self.pos + 1;
                proof {
                    let a = none.push(Act::Fault(FaultPoint::BeforeOpDone, index));
                    lemma_recorded_push(none, Act::Fault(FaultPoint::BeforeOpDone, index));
                    let b = if self.dry_run {
                        a
                    } else {
                        a.push(Act::Record(e))
                    };
                    lemma_recorded_push(a, Act::Record(e));
                    let c = b.push(Act::Fault(FaultPoint::AfterOpDone, index));
                    lemma_recorded_push(b, Act::Fault(FaultPoint::AfterOpDone, index));
                    lemma_recorded_push(c, Act::Tell(ExecEvent::Finished { index, freed }));
                    assert(acts@ =~= c.push(Act::Tell(ExecEvent::Finished { index, freed })));
                    if !self.dry_run {
                        assert(log + recorded(acts@) =~= log.push(e));
                        lemma_log_push(log, e);
                    } else {
                        assert(log + recorded(acts@) =~= log);
                    }
                    self.log@ = log + recorded(acts@);
                    self.lemma_passes(*old(self));
                    self.lemma_turn(*old(self));
                }
            },
            OpResult::Paused(freed) => {
                let ghost e = Event::Paused { at: index, freed };
                if !self.dry_run {
                    acts.push(Act::Record(Event::Paused { at: index, freed }));
                }
                self.totals.freed = self.totals.freed + freed;
                self.totals.paused = true;
                proof {
                    if !self.dry_run {
                        lemma_recorded_push(none, Act::Record(e));
                        assert(acts@ =~= none.push(Act::Record(e)));
                        assert(log + recorded(acts@) =~= log.push(e));
                        lemma_log_push(log, e);
                    } else {
                        assert(log + recorded(acts@) =~= log);
                    }
                    self.log@ = log + recorded(acts@);
                    self.lemma_others_as_found(*old(self));
                }
            },
            OpResult::Failed(error) => {
                let copy = error.clone();
                let ghost e = Event::OpFailed { op: index, error: copy };
                let ghost dry = self.dry_run;
                if !self.dry_run {
                    acts.push(Act::Record(Event::OpFailed { op: index, error: copy }));
                }
                let ghost a = acts@;
                acts.push(Act::Tell(ExecEvent::Failed { index, error }));
                self.totals.failed = self.totals.failed + 1;
                self.pos = self.pos + 1;
                proof {
                    lemma_recorded_push(a, acts@.last());
                    assert(acts@ =~= a.push(acts@.last()));
                    if !dry {
                        lemma_recorded_push(none, Act::Record(e));
                        assert(a =~= none.push(Act::Record(e)));
                        assert(log + recorded(acts@) =~= log.push(e));
                        lemma_log_push(log, e);
                    } else {
                        assert(log + recorded(acts@) =~= log);
                    }
                    self.log@ = log + recorded(acts@);
                    self.lemma_passes(*old(self));
                    self.lemma_turn(*old(self));
                }
            },
        }
        acts
    }

    /// Close the run once every operation has had its turn.
    pub fn finish(&mut self) -> (acts: Vec<Act>)
        requires
            old(self).wf(),
        ensures
            final(self).wf(),
            final(self).same_course(*old(self)),
            final(self).pos == old(self).pos,
            final(self).totals == old(self).totals,
            final(self).log@ == old(self).log@ + recorded(acts@),
            ended_once(old(self).log@) ==> ended_once(final(self).log@),
            old(self).dry_run ==> recorded(acts@).len() == 0,
            acts@ == in_journal(
                old(self).dry_run,
                Event::RunEnd {
                    done: old(self).totals.done,
                    failed: old(self).totals.failed,
                    skipped: old(self).totals.skipped,
                    freed: old(self).totals.freed,
                },
            ),
    {
        let mut acts: Vec<Act> = Vec::new();
        let ghost log = self.log@;
        let ghost none = Seq::<Act>::empty();
        let ghost e = Event::RunEnd {
            done: self.totals.done,
            failed: self.totals.failed,
            skipped: self.totals.skipped,
            freed: self.totals.freed,
        };
        if !self.dry_run {
            acts.push(
                Act::Record(
                    Event::RunEnd {
                        done: self.totals.done,
                        failed: self.totals.failed,
                        skipped: self.totals.skipped,
                        freed: self.totals.freed,
                    },
                ),
            );
        }
        proof {
            assert(recorded(none) =~= Seq::<Event>::empty());
            if !self.dry_run {
                lemma_recorded_push(none, Act::Record(e));
                assert(acts@ =~= none.push(Act::Record(e)));
                assert(log + recorded(acts@) =~= log.push(e));
                lemma_log_push(log, e);
            } else {
                assert(log + recorded(acts@) =~= log);
            }
            self.log@ = log + recorded(acts@);
            self.lemma_others_as_found(*old(self));
        }
        acts
    }
}

/// The act that puts `e` in the journal, if there is one. A dry run has none.
pub open spec fn in_journal(dry_run: bool, e: Event) -> Seq<Act> {
    if dry_run {
        Seq::empty()
    } else {
        seq![Act::Record(e)]
    }
}

pub(crate) proof fn lemma_log_push(log: Seq<Event>, e: Event)
    ensures
        ended_once(log) && (e.ends_op() ==> !ended(log).contains(e.spec_op()->0)) ==> ended_once(
            log.push(e),
        ),
        ended(log.push(e)) == (match e {
            Event::OpDone { op, .. } => ended(log).insert(op),
            Event::OpFailed { op, .. } => ended(log).insert(op),
            Event::OpSkipped { op, .. } => ended(log).insert(op),
            _ => ended(log),
        }),
        begun(log.push(e)) == (match e {
            Event::OpBegin { op } => begun(log).insert(op),
            _ => begun(log),
        }),
        published(log.push(e)) == (match e {
            Event::Published { op, entry } => published(log).insert(op, entry),
            _ => published(log),
        }),
        ({
            let t = tally(log);
            tally(log.push(e)) == (match e {
                Event::OpDone { freed, .. } => crate::exec::Tally {
                    done: t.done + 1,
                    freed: t.freed + freed as nat,
                    ..t
                },
                Event::OpFailed { .. } => crate::exec::Tally { failed: t.failed + 1, ..t },
                Event::OpSkipped { .. } => crate::exec::Tally { skipped: t.skipped + 1, ..t },
                Event::Paused { freed, .. } => crate::exec::Tally {
                    freed: t.freed + freed as nat,
                    ..t
                },
                _ => t,
            })
        }),
{
    assert(log.push(e).drop_last() =~= log);
}

proof fn lemma_recorded_push(acts: Seq<Act>, act: Act)
    ensures
        recorded(acts.push(act)) == (match act {
            Act::Record(e) => recorded(acts).push(e),
            _ => recorded(acts),
        }),
{
    assert(acts.push(act).drop_last() =~= acts);
}

/// What a run has recorded is what the next one starts from: its totals are those of the whole
/// commit so far, every operation it completed is passed over, and no other is.
pub proof fn law_resume_takes_up_where_it_stopped(run: Run, records: Seq<Record>, op: usize)
    requires
        run.wf(),
        !run.dry_run,
        events_of(records) == run.log@,
    ensures
        counts(run.totals, tally(events_of(records))),
        ended(events_of(records)).contains(op) == (run.terminal@.contains(op) || run.passed(op)),
{
}

/// A run that is resumed performs exactly the operations that the journal holds no completion for,
/// each in its turn, and takes their identity less strictly exactly where they were begun before.
pub proof fn law_a_resumed_run_performs_what_is_left(
    plan: Plan,
    records: Seq<Record>,
    run: Run,
    op: usize,
)
    requires
        run.wf(),
        run.pos == 0,
        is_order(run_ranks(plan.ops@), ints(run.order@)),
        run.terminal@ == ended(events_of(records)),
        run.in_flight@ == begun(events_of(records)).difference(ended(events_of(records))),
        op < plan.ops@.len(),
    ensures
        ended(events_of(records)).contains(op) ==> forall|k: int|
            0 <= k < run.order@.len() && #[trigger] run.order@[k] == op ==> run.terminal@.contains(
                run.order@[k],
            ),
        !ended(events_of(records)).contains(op) ==> {
            &&& exists|k: int| 0 <= k < run.order@.len() && #[trigger] run.order@[k] == op
            &&& !run.terminal@.contains(op)
            &&& run.in_flight@.contains(op) == begun(events_of(records)).contains(op)
        },
{
    let p = ints(run.order@);
    lemma_order_complete(run_ranks(plan.ops@), p, op as int);
    let k = choose|k: int| 0 <= k < p.len() && p[k] == op;
    assert(run.order@[k] == op);
}

/// An operation that is carried out has its intent in the journal first.
pub proof fn law_intent_is_recorded_first(
    acts: Seq<Act>,
    index: usize,
    strict: bool,
    copy: Option<Ident>,
)
    requires
        ({
            let lead = seq![Act::Fault(FaultPoint::BeforeOpBegin, index)] + in_journal(
                false,
                Event::OpBegin { op: index },
            ) + seq![Act::Fault(FaultPoint::AfterOpBegin, index)];
            acts.len() == lead.len() + 2 && acts.take(lead.len() as int) == lead && acts[acts.len()
                - 1] == (Act::Perform { index, strict, published: copy })
        }),
    ensures
        exists|k: int|
            0 <= k < acts.len() - 1 && #[trigger] acts[k] == Act::Record(
                Event::OpBegin { op: index },
            ),
{
    assert(acts.take(3)[1] == acts[1]);
}

/// An operation that the journal holds a completion for is never carried out again.
pub proof fn law_nothing_is_done_twice(run: Run)
    requires
        run.wf(),
        !run.dry_run,
        run.is_ready(),
    ensures
        !ended(run.log@).contains(run.due()),
{
    if run.passed(run.due()) {
        let k = choose|k: int| 0 <= k < run.pos && #[trigger] run.order@[k] == run.due();
        assert(run.order@[k] != run.order@[run.pos as int]);
    }
}

/// Once a run is over the journal holds a completion for every operation of the plan, however
/// many runs it took.
pub proof fn law_a_run_leaves_nothing_out(plan: Plan, run: Run, op: usize)
    requires
        run.wf(),
        !run.dry_run,
        is_order(run_ranks(plan.ops@), ints(run.order@)),
        run.pos == run.order@.len(),
        op < plan.ops@.len(),
    ensures
        ended(run.log@).contains(op),
{
    let p = ints(run.order@);
    lemma_order_complete(run_ranks(plan.ops@), p, op as int);
    let k = choose|k: int| 0 <= k < p.len() && p[k] == op;
    assert(run.order@[k] == op);
    assert(run.passed(op));
}

/// A plan that was run to its end is not run again: whenever a second run over the same journal
/// has an operation left to look at, that operation is passed over, so nothing is started,
/// completed or failed, and its totals are those of the first.
pub proof fn law_a_finished_plan_is_not_run_again(
    plan: Plan,
    first: Run,
    records: Seq<Record>,
    second: Run,
)
    requires
        first.wf(),
        !first.dry_run,
        is_order(run_ranks(plan.ops@), ints(first.order@)),
        first.pos == first.order@.len(),
        events_of(records) == first.log@,
        second.wf(),
        is_order(run_ranks(plan.ops@), ints(second.order@)),
        forall|i: int| 0 <= i < second.order@.len() ==> #[trigger] second.order@[i]
            < plan.ops@.len(),
        second.terminal@ == ended(events_of(records)),
        counts(second.totals, tally(events_of(records))),
    ensures
        !second.is_ready(),
        second.pos < second.order@.len() ==> second.terminal@.contains(second.due()),
        second.totals.done == first.totals.done,
        second.totals.failed == first.totals.failed,
        second.totals.skipped == first.totals.skipped,
        second.totals.freed == first.totals.freed,
{
    if second.pos < second.order@.len() {
        law_a_run_leaves_nothing_out(plan, first, second.due());
    }
}

/// The operations of a plan of `n`.
spec fn below(n: nat) -> Set<usize> {
    Set::new(|op: usize| op < n)
}

proof fn lemma_below(n: nat)
    requires
        n <= usize::MAX,
    ensures
        below(n).finite(),
        below(n).len() == n,
    decreases n,
{
    if n == 0 {
        assert(below(n) =~= Set::<usize>::empty());
    } else {
        lemma_below((n - 1) as nat);
        assert(below(n) =~= below((n - 1) as nat).insert((n - 1) as usize));
    }
}

proof fn lemma_each_counts_once(events: Seq<Event>)
    requires
        ended_once(events),
    ensures
        ended(events).finite(),
        ended(events).len() == tally(events).done + tally(events).failed + tally(events).skipped,
    decreases events.len(),
{
    if events.len() > 0 {
        lemma_each_counts_once(events.drop_last());
    }
}

/// A failed operation does not stop the rest: once a run is over, what was done, what failed and
/// what was skipped add up to the operations of the plan, however many runs it took.
pub proof fn law_every_operation_is_counted(plan: Plan, run: Run)
    requires
        run.wf(),
        !run.dry_run,
        is_order(run_ranks(plan.ops@), ints(run.order@)),
        forall|i: int| 0 <= i < run.order@.len() ==> #[trigger] run.order@[i] < plan.ops@.len(),
        run.pos == run.order@.len(),
        plan.ops@.len() <= usize::MAX,
        ended_once(run.log@),
        forall|op: usize| #[trigger] run.terminal@.contains(op) ==> op < plan.ops@.len(),
    ensures
        run.totals.done + run.totals.failed + run.totals.skipped == plan.ops@.len(),
{
    let n = plan.ops@.len();
    assert forall|op: usize| ended(run.log@).contains(op) == below(n).contains(op) by {
        if op < n {
            law_a_run_leaves_nothing_out(plan, run, op);
        }
        if run.passed(op) {
            let k = choose|k: int| 0 <= k < run.pos && #[trigger] run.order@[k] == op;
            assert(run.order@[k] < n);
        }
    }
    assert(ended(run.log@) =~= below(n));
    lemma_below(n);
    lemma_each_counts_once(run.log@);
}

/// What a run puts on record before it publishes a copy is what the next run is told of that move,
/// whatever else the journal goes on to say.
pub proof fn law_a_publication_is_handed_on(
    log: Seq<Event>,
    op: usize,
    entry: Ident,
    after: Seq<Event>,
)
    requires
        forall|i: int|
            0 <= i < after.len() ==> !(#[trigger] after[i] is Published && after[i].spec_op()
                == Some(op)),
    ensures
        ({
            let all = log.push(Event::Published { op, entry }) + after;
            published(all).contains_key(op) && published(all)[op] == entry
        }),
    decreases after.len(),
{
    let start = log.push(Event::Published { op, entry });
    if after.len() == 0 {
        assert(start + after =~= start);
        assert(start.drop_last() =~= log);
    } else {
        law_a_publication_is_handed_on(log, op, entry, after.drop_last());
        assert((start + after).drop_last() =~= start + after.drop_last());
        assert((start + after).last() == after.last());
    }
}

} // verus!
