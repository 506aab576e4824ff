//! Running a plan.
//!
//! Three properties matter here, in this order:
//!
//! 1. Nothing is destroyed that the user did not review. Every operation re-checks the identity
//!    recorded at staging time.
//! 2. An interrupted run is resumable, not ambiguous. The journal is written ahead of the syscall
//!    it describes, and every operation is idempotent, so replaying is always safe.
//! 3. Stopping is cheap. Pause is checked between operations and between entries inside a large
//!    tree, so a commit can be interrupted without waiting for it to finish.
//!
//! The machines here decide; whoever runs them performs what they ask for and hands back what came
//! of it.

pub mod copy;
pub mod disk;
pub mod journal;
pub mod moves;
pub mod names;
pub mod records;
pub mod remove;
pub mod run;

use std::collections::{HashMap, HashSet};
use std::sync::atomic::{AtomicBool, Ordering};

use vstd::prelude::*;

use crate::exec::journal::{Event, Record};
use crate::order::{comes_first, ints, is_order, stable_order, Rank};
use crate::path::{component_count, components};
use crate::plan::{EntryKind, Ident, Op, Plan};
use crate::stat::Stat;
use crate::text::cat2;

verus! {

broadcast use vstd::std_specs::hash::group_hash_axioms;

/// Shared stop switch. Pausing is voluntary; recovery treats it exactly like a crash.
#[derive(Debug)]
pub struct Control {
    pause: AtomicBool,
}

impl Control {
    pub fn new() -> Control {
        Control { pause: AtomicBool::new(false) }
    }

    pub fn pause(&self) {
        self.pause.store(true, Ordering::Relaxed);
    }

    /// Whether someone has asked to stop. Other threads decide that, so nothing is known of it
    /// beforehand.
    pub fn is_paused(&self) -> bool {
        self.pause.load(Ordering::Relaxed)
    }
}

/// Points at which a run can be interrupted. Named for what has and has not happened yet, because
/// that is the distinction recovery has to get right.
#[derive(Clone, Copy, Debug, PartialEq, Eq, Structural)]
pub enum FaultPoint {
    /// Nothing recorded, nothing done.
    BeforeOpBegin,
    /// Intent recorded, nothing done.
    AfterOpBegin,
    /// Part of a tree removed, no completion recorded.
    MidDelete,
    /// Part of a tree copied, nothing published.
    MidCopy,
    /// The copy is published at its destination; the original is still there.
    BeforeSourceRemoval,
    /// Everything done, completion not yet recorded.
    BeforeOpDone,
    /// Everything done and recorded.
    AfterOpDone,
}

/// How thoroughly a copied file is checked before the original is removed.
#[derive(Clone, Copy, Debug, PartialEq, Eq, Structural)]
pub enum Verify {
    /// Length must match. Catches truncation, which is what an interrupted copy produces.
    Size,
    /// Read both copies back and compare digests. Slower by a full re-read of both sides.
    Hash,
}

impl Default for Verify {
    fn default() -> (r: Self)
        ensures
            r == Verify::Size,
    {
        Verify::Size
    }
}

#[derive(Clone, Copy, Debug, PartialEq, Eq, Structural)]
pub struct ExecOptions {
    /// Check everything, change nothing.
    pub dry_run: bool,
    /// How hard a copied file is checked before its original is removed.
    pub verify: Verify,
}

impl Default for ExecOptions {
    fn default() -> (r: Self)
        ensures
            r == (ExecOptions { dry_run: false, verify: Verify::Size }),
    {
        ExecOptions { dry_run: false, verify: Verify::Size }
    }
}

/// Progress, for a frontend that wants to show it.
#[derive(Clone, Debug)]
pub enum ExecEvent {
    Started { index: usize, summary: String },
    Finished { index: usize, freed: u64 },
    Failed { index: usize, error: String },
    /// Already completed by an earlier run.
    AlreadyDone { index: usize },
}

#[derive(Clone, Copy, Debug, PartialEq, Eq, Structural)]
pub struct Outcome {
    pub done: usize,
    pub failed: usize,
    pub skipped: usize,
    /// Disk bytes actually reclaimed, counted from what was unlinked.
    pub freed: u64,
    pub paused: bool,
}

impl Default for Outcome {
    fn default() -> (r: Self)
        ensures
            r == (Outcome { done: 0, failed: 0, skipped: 0, freed: 0, paused: false }),
    {
        Outcome { done: 0, failed: 0, skipped: 0, freed: 0, paused: false }
    }
}

impl Outcome {
    pub fn is_complete(&self) -> (r: bool)
        ensures
            r == (!self.paused && self.failed == 0),
    {
        !self.paused && self.failed == 0
    }
}

/// How an operation ended.
#[derive(Clone, Copy, Debug, PartialEq, Eq, Structural)]
pub enum Step {
    /// Done, having reclaimed this much.
    Done(u64),
    /// Stopped part way, having reclaimed or copied this much.
    Paused(u64),
}

/// What came of opening a directory.
#[derive(Debug)]
pub enum Opened {
    Yes,
    /// There is no such directory.
    Gone,
    Failed(String),
}

/// What came of a stat that follows no link.
#[derive(Debug)]
pub enum Looked {
    Found(Stat),
    /// There is no such entry.
    Gone,
    Failed(String),
}

/// What came of removing an entry.
#[derive(Debug)]
pub enum Removed {
    Yes,
    /// It was gone already.
    Gone,
    Failed(String),
}

/// Whether a name holds a NUL, which no entry can be called by.
pub open spec fn holds_nul(name: Seq<u8>) -> bool {
    name.contains(0)
}

pub fn has_nul(name: &[u8]) -> (r: bool)
    ensures
        r == holds_nul(name@),
{
    let mut i: usize = 0;
    while i < name.len()
        invariant
            i <= name@.len(),
            forall|k: int| 0 <= k < i ==> name@[k] != 0,
        decreases name.len() - i,
    {
        if name[i] == 0 {
            proof {
                assert(name@[i as int] == 0);
            }
            return true;
        }
        i += 1;
    }
    false
}

/// What a plan directory's journal says about the last run.
#[derive(Clone, Copy, Debug, PartialEq, Eq, Structural)]
pub enum RunState {
    NotStarted,
    /// Started and neither finished nor paused: a crash, or a kill.
    Interrupted,
    Paused,
    Finished,
}

pub open spec fn run_state(records: Seq<Record>) -> RunState {
    if records.len() == 0 {
        RunState::NotStarted
    } else {
        match records.last().event {
            Event::RunEnd { .. } => RunState::Finished,
            Event::Paused { .. } => RunState::Paused,
            _ => RunState::Interrupted,
        }
    }
}

/// What the records of a journal say about the run.
pub fn state(records: &Vec<Record>) -> (r: RunState)
    ensures
        r == run_state(records@),
{
    if records.len() == 0 {
        return RunState::NotStarted;
    }
    match &records[records.len() - 1].event {
        Event::RunEnd { .. } => RunState::Finished,
        Event::Paused { .. } => RunState::Paused,
        _ => RunState::Interrupted,
    }
}

/// The events of some records.
pub open spec fn events_of(records: Seq<Record>) -> Seq<Event> {
    records.map_values(|r: Record| r.event)
}

/// The operations some events say have begun.
pub open spec fn begun(events: Seq<Event>) -> Set<usize>
    decreases events.len(),
{
    if events.len() == 0 {
        Set::empty()
    } else {
        match events.last() {
            Event::OpBegin { op } => begun(events.drop_last()).insert(op),
            _ => begun(events.drop_last()),
        }
    }
}

/// The operations some events say are over.
pub open spec fn ended(events: Seq<Event>) -> Set<usize>
    decreases events.len(),
{
    if events.len() == 0 {
        Set::empty()
    } else {
        match events.last() {
            Event::OpDone { op, .. } => ended(events.drop_last()).insert(op),
            Event::OpFailed { op, .. } => ended(events.drop_last()).insert(op),
            Event::OpSkipped { op, .. } => ended(events.drop_last()).insert(op),
            _ => ended(events.drop_last()),
        }
    }
}

/// Whether no operation is said to be over more than once.
pub open spec fn ended_once(events: Seq<Event>) -> bool
    decreases events.len(),
{
    events.len() > 0 ==> {
        &&& ended_once(events.drop_last())
        &&& events.last().ends_op() ==> !ended(events.drop_last()).contains(
            events.last().spec_op()->0,
        )
    }
}

/// What some events say each move was about to publish. The latest word counts.
pub open spec fn published(events: Seq<Event>) -> Map<usize, Ident>
    decreases events.len(),
{
    if events.len() == 0 {
        Map::empty()
    } else {
        match events.last() {
            Event::Published { op, entry } => published(events.drop_last()).insert(op, entry),
            _ => published(events.drop_last()),
        }
    }
}

/// What some events say a move was last about to publish.
pub open spec fn record_of(events: Seq<Event>, op: usize) -> Option<Ident> {
    if published(events).contains_key(op) {
        Some(published(events)[op])
    } else {
        None
    }
}

/// What some events add up to.
pub struct Tally {
    pub done: nat,
    pub failed: nat,
    pub skipped: nat,
    pub freed: nat,
}

/// How much work some events account for. What an interrupted operation had already reclaimed
/// counts: the resumed run only removes what is left.
pub open spec fn tally(events: Seq<Event>) -> Tally
    decreases events.len(),
{
    if events.len() == 0 {
        Tally { done: 0, failed: 0, skipped: 0, freed: 0 }
    } else {
        let t = tally(events.drop_last());
        match events.last() {
            Event::OpDone { freed, .. } => Tally {
                done: t.done + 1,
                freed: t.freed + freed as nat,
                ..t
            },
            Event::OpFailed { .. } => Tally { failed: t.failed + 1, ..t },
            Event::OpSkipped { .. } => Tally { skipped: t.skipped + 1, ..t },
            Event::Paused { freed, .. } => Tally { freed: t.freed + freed as nat, ..t },
            _ => t,
        }
    }
}

/// Whether an outcome counts what a tally says.
pub open spec fn counts(o: Outcome, t: Tally) -> bool {
    o.done == t.done && o.failed == t.failed && o.skipped == t.skipped && o.freed == t.freed
}

proof fn lemma_tally_grows(events: Seq<Event>, n: int)
    requires
        0 <= n <= events.len(),
    ensures
        tally(events.take(n)).freed <= tally(events).freed,
    decreases events.len(),
{
    if n < events.len() {
        assert(events.drop_last().take(n) =~= events.take(n));
        lemma_tally_grows(events.drop_last(), n);
    } else {
        assert(events.take(n) =~= events);
    }
}

pub(crate) proof fn lemma_tally_counts(events: Seq<Event>)
    ensures
        tally(events).done <= events.len(),
        tally(events).failed <= events.len(),
        tally(events).skipped <= events.len(),
        tally(events).done + tally(events).failed + tally(events).skipped <= events.len(),
    decreases events.len(),
{
    if events.len() > 0 {
        lemma_tally_counts(events.drop_last());
    }
}

/// Whether what a journal says was reclaimed can be added up.
pub fn can_tally(records: &Vec<Record>) -> (r: bool)
    ensures
        r == (tally(events_of(records@)).freed <= u64::MAX),
{
    let ghost events = events_of(records@);
    let mut sum: u64 = 0;
    let mut i: usize = 0;
    proof {
        assert(events.take(0) =~= Seq::<Event>::empty());
    }
    while i < records.len()
        invariant
            events == events_of(records@),
            i <= records@.len(),
            sum == tally(events.take(i as int)).freed,
        decreases records.len() - i,
    {
        proof {
            assert(events.take(i + 1).drop_last() =~= events.take(i as int));
            assert(events.take(i + 1).last() == records@[i as int].event);
            lemma_tally_grows(events, i + 1);
        }
        let freed: u64 = match &records[i].event {
            Event::OpDone { freed, .. } => *freed,
            Event::Paused { freed, .. } => *freed,
            _ => 0,
        };
        if freed > u64::MAX - sum {
            return false;
        }
        sum = sum + freed;
        i += 1;
    }
    proof {
        assert(events.take(i as int) =~= events);
    }
    true
}

/// What a journal says has been done.
pub struct Replay {
    /// Operations that are over.
    pub terminal: HashSet<usize>,
    /// Operations that began and were never finished. They get resumed, with a relaxed identity
    /// check: any drift is the earlier run's own doing.
    pub in_flight: HashSet<usize>,
    /// The finished copies that moves were about to give their real names.
    pub published: HashMap<usize, Ident>,
    pub totals: Outcome,
}

/// Totals recovered from a journal, so a resumed run can report the whole commit rather than just
/// its own share of it.
pub fn replay(records: &Vec<Record>) -> (r: Replay)
    requires
        tally(events_of(records@)).freed <= u64::MAX,
    ensures
        r.terminal@ == ended(events_of(records@)),
        r.in_flight@ == begun(events_of(records@)).difference(ended(events_of(records@))),
        r.published@ == published(events_of(records@)),
        counts(r.totals, tally(events_of(records@))),
        !r.totals.paused,
{
    let ghost events = events_of(records@);
    let mut terminal: HashSet<usize> = HashSet::new();
    let mut totals = Outcome::default();
    let mut i: usize = 0;
    proof {
        assert(events.take(0) =~= Seq::<Event>::empty());
    }
    while i < records.len()
        invariant
            events == events_of(records@),
            i <= records@.len(),
            tally(events).freed <= u64::MAX,
            terminal@ == ended(events.take(i as int)),
            counts(totals, tally(events.take(i as int))),
            !totals.paused,
        decreases records.len() - i,
    {
        proof {
            assert(events.take(i + 1).drop_last() =~= events.take(i as int));
            assert(events.take(i + 1).last() == records@[i as int].event);
            lemma_tally_grows(events, i + 1);
            lemma_tally_counts(events.take(i + 1));
        }
        match &records[i].event {
            Event::OpDone { op, freed } => {
                terminal.insert(*op);
                totals.done = totals.done + 1;
                totals.freed = totals.freed + *freed;
            },
            Event::OpFailed { op, .. } => {
                terminal.insert(*op);
                totals.failed = totals.failed + 1;
            },
            Event::OpSkipped { op, .. } => {
                terminal.insert(*op);
                totals.skipped = totals.skipped + 1;
            },
            Event::Paused { freed, .. } => {
                totals.freed = totals.freed + *freed;
            },
            _ => {},
        }
        i += 1;
    }
    proof {
        assert(events.take(i as int) =~= events);
    }
    let mut in_flight: HashSet<usize> = HashSet::new();
    let mut sent: HashMap<usize, Ident> = HashMap::new();
    let mut j: usize = 0;
    while j < records.len()
        invariant
            events == events_of(records@),
            j <= records@.len(),
            terminal@ == ended(events),
            in_flight@ == begun(events.take(j as int)).difference(ended(events)),
            sent@ == published(events.take(j as int)),
        decreases records.len() - j,
    {
        proof {
            assert(events.take(j + 1).drop_last() =~= events.take(j as int));
            assert(events.take(j + 1).last() == records@[j as int].event);
        }
        match &records[j].event {
            Event::OpBegin { op } => {
                if !terminal.contains(op) {
                    in_flight.insert(*op);
                }
                proof {
                    assert(in_flight@ =~= begun(events.take(j + 1)).difference(ended(events)));
                }
            },
            Event::Published { op, entry } => {
                sent.insert(*op, *entry);
            },
            _ => {},
        }
        j += 1;
    }
    proof {
        assert(events.take(j as int) =~= events);
    }
    Replay { terminal, in_flight, published: sent, totals }
}

pub open spec fn depth(op: Op) -> nat {
    components(op.from()).len()
}

/// What operations are put in order by: moves before deletions, then deepest paths first.
pub open spec fn run_ranks(ops: Seq<Op>) -> Seq<Rank> {
    ops.map_values(
        |op: Op|
            Rank {
                major: if op is Delete {
                    1
                } else {
                    0
                },
                minor: (u64::MAX - depth(op)) as u64,
            },
    )
}

/// Moves before deletions, and within each, deepest paths first.
///
/// Moves go first because they preserve data and deletions destroy it: if a run stops half way,
/// what survives should be everything that was going to be kept. Depth ordering means a deletion
/// nested inside another runs before the parent sweeps it away, so the freed bytes are attributed
/// to the operation that actually removed them.
pub fn execution_order(plan: &Plan) -> (r: Vec<usize>)
    ensures
        is_order(run_ranks(plan.ops@), ints(r@)),
        r@.len() == plan.ops@.len(),
        forall|i: int| 0 <= i < r@.len() ==> #[trigger] r@[i] < plan.ops@.len(),
{
    let mut ranks: Vec<Rank> = Vec::new();
    while ranks.len() < plan.ops.len()
        invariant
            ranks@.len() <= plan.ops@.len(),
            ranks@ == run_ranks(plan.ops@).take(ranks@.len() as int),
        decreases plan.ops.len() - ranks.len(),
    {
        let op = &plan.ops[ranks.len()];
        let deep: usize = component_count(op.source());
        let ghost n = ranks@.len() as int;
        ranks.push(
            Rank {
                major: if op.is_delete() {
                    1
                } else {
                    0
                },
                minor: u64::MAX - deep as u64,
            },
        );
        proof {
            assert(ranks@ =~= run_ranks(plan.ops@).take(n + 1));
        }
    }
    proof {
        assert(ranks@ =~= run_ranks(plan.ops@));
    }
    stable_order(&ranks)
}

/// Every move comes before every deletion, and of two of a kind the deeper comes first.
pub proof fn law_moves_first_deepest_first(ops: Seq<Op>, order: Seq<int>, i: int, j: int)
    requires
        is_order(run_ranks(ops), order),
        forall|k: int| 0 <= k < ops.len() ==> depth(#[trigger] ops[k]) <= u64::MAX,
        0 <= i < j < order.len(),
    ensures
        ops[order[j]] is Move ==> ops[order[i]] is Move,
        (ops[order[i]] is Delete) == (ops[order[j]] is Delete) ==> depth(ops[order[i]]) >= depth(
            ops[order[j]],
        ),
{
    let ranks = run_ranks(ops);
    assert(comes_first(ranks, order[i], order[j]));
    assert(ranks[order[i]] == run_ranks(ops)[order[i]]);
    assert(depth(ops[order[i]]) <= u64::MAX && depth(ops[order[j]]) <= u64::MAX);
}

/// Whether an entry still is what was staged.
///
/// Device, inode and kind must always agree: that is what makes it the same object rather than a
/// different file at the same path. Size and mtime are only enforced for an operation that has not
/// started, because once a directory is being emptied its mtime moves.
pub open spec fn still_matches(staged: Ident, now: Ident, strict: bool) -> bool {
    &&& staged.dev == now.dev
    &&& staged.ino == now.ino
    &&& staged.kind == now.kind
    &&& strict ==> staged.size == now.size && staged.mtime == now.mtime
}

pub fn matches(staged: &Ident, now: &Ident, strict: bool) -> (r: bool)
    ensures
        r == still_matches(*staged, *now, strict),
{
    if staged.dev != now.dev || staged.ino != now.ino || staged.kind != now.kind {
        return false;
    }
    !strict || (staged.size == now.size && staged.mtime == now.mtime)
}

/// A strict match is a match: resuming never asks for more than starting did, and never accepts a
/// different object.
pub proof fn law_strict_match_is_a_match(staged: Ident, now: Ident)
    ensures
        still_matches(staged, now, true) ==> still_matches(staged, now, false),
        still_matches(staged, now, true) == (staged == now),
        still_matches(staged, now, false) ==> staged.dev == now.dev && staged.ino == now.ino
            && staged.kind == now.kind,
{
}

/// Whether a look found what there is.
pub open spec fn shows(look: Looked, there: Option<Stat>) -> bool {
    match there {
        Some(stat) => look == Looked::Found(stat),
        None => look == Looked::Gone,
    }
}

/// Whether two entries are one and the same: the same device, inode and kind.
pub open spec fn is_same(a: Stat, b: Stat) -> bool {
    still_matches(Ident::spec_of(a), Ident::spec_of(b), false)
}

/// Whether what is in one place is what is in another, so far as it is there.
pub open spec fn is_still(a: Option<Stat>, b: Option<Stat>) -> bool {
    match (a, b) {
        (Some(x), Some(y)) => is_same(x, y),
        (None, None) => true,
        _ => false,
    }
}

pub open spec fn kind_word(kind: EntryKind) -> Seq<char> {
    match kind {
        EntryKind::Dir => "dir"@,
        EntryKind::File => "file"@,
        EntryKind::Symlink => "symlink"@,
        EntryKind::Other => "other"@,
    }
}

/// What sets an entry apart from the one that was staged.
pub open spec fn difference_text(staged: Ident, now: Ident) -> Seq<char> {
    if staged.ino != now.ino || staged.dev != now.dev {
        "a different file now occupies this path"@
    } else if staged.kind != now.kind {
        "now a "@ + kind_word(now.kind)
    } else {
        "it has been modified since it was staged"@
    }
}

pub fn difference(staged: &Ident, now: &Ident) -> (r: String)
    ensures
        r@ == difference_text(*staged, *now),
{
    if staged.ino != now.ino || staged.dev != now.dev {
        String::from_str("a different file now occupies this path")
    } else if staged.kind != now.kind {
        cat2(
            "now a ",
            match now.kind {
                EntryKind::Dir => "dir",
                EntryKind::File => "file",
                EntryKind::Symlink => "symlink",
                EntryKind::Other => "other",
            },
        )
    } else {
        String::from_str("it has been modified since it was staged")
    }
}

} // verus!
