//! Reviewing what is staged, writing it out, and committing it.

use vstd::prelude::*;

use crate::exec::{ExecEvent, Outcome};
use crate::format::{human_size, size_text};
use crate::model::{NodeId, Tree};
use crate::plan::validate::{
    all_notes, in_note_order, path_views, validate, Note, ValidateOptions, World,
};
use crate::plan::{normalized, Conflict, Op, Plan, PLAN_VERSION};
use crate::text::{cat2, cat3, copy_bytes, dec, decimal};
use crate::tui::app::ids::{ids_in, sorted_keys};
use crate::tui::app::{
    clamped, errors_among, op_note, op_notes, plan_note, staged_notes, Action, AfterLook, App, Ask,
    Face, OpNote, Pending, PendingNote, PlanNote, RunNote, Running, Screen, StagedKind, StagedNote,
};

verus! {

broadcast use vstd::std_specs::hash::group_hash_axioms;

/// The operation that a staged change stands for.
pub open spec fn op_for(t: Tree, id: NodeId, s: StagedNote) -> OpNote {
    OpNote {
        from: t.spec_path(id),
        to: s.to,
        ident: s.ident,
        est_bytes: s.est_bytes,
        on_conflict: match s.to {
            Some(_) => Some(Conflict::Fail),
            None => None,
        },
    }
}

pub open spec fn ops_for(t: Tree, staged: Map<NodeId, StagedNote>, ids: Seq<NodeId>) -> Seq<OpNote> {
    ids.map_values(|id: NodeId| op_for(t, id, staged[id]))
}

pub open spec fn plural_text(n: nat) -> Seq<char> {
    if n == 1 {
        ""@
    } else {
        "s"@
    }
}

/// Whether these are the options a plan is checked with. One for another machine is not checked
/// against this one.
pub open spec fn are_options(face: Face, opts: ValidateOptions) -> bool {
    &&& !opts.allow_outside_root
    &&& path_views(opts.protected@) == face.protected
    &&& opts.headroom_percent == face.headroom_percent
    &&& opts.offline == (face.remote is Some)
}

/// Whether these are the findings about a plan, given what was found on the machine.
pub open spec fn are_findings(face: Face, world: World, findings: Seq<Note>) -> bool {
    exists|plan: Plan, opts: ValidateOptions| #[trigger]
        checks(face, plan, opts) && in_note_order(all_notes(plan, opts, world), findings)
}

pub open spec fn checks(face: Face, plan: Plan, opts: ValidateOptions) -> bool {
    plan_note(plan) == face.plan && are_options(face, opts)
}

/// Whether a plan is another one without the operations that are redundant in it.
pub open spec fn is_tidy(plan: Plan, of: PlanNote) -> bool {
    exists|ops: Seq<Op>| #[trigger]
        op_notes(ops) == of.ops && plan_note(plan) == (PlanNote {
            ops: op_notes(normalized(ops)),
            ..of
        })
}

/// What is said of a plan that was written out.
pub open spec fn saved_text(path: Seq<char>, ops: nat, dropped: nat, errors: nat) -> Seq<char> {
    let first = if dropped > 0 {
        ", "@ + dec(dropped) + " redundant dropped"@
    } else {
        Seq::empty()
    };
    let second = if errors > 0 {
        ", "@ + dec(errors) + " error"@ + plural_text(errors) + " to resolve"@
    } else {
        Seq::empty()
    };
    "saved "@ + path + " ("@ + dec(ops) + " ops"@ + first + second + ")"@
}

/// What is said of an operation.
pub open spec fn event_text(e: ExecEvent) -> Seq<char> {
    match e {
        ExecEvent::Started { index, summary } => "#"@ + dec(index as nat) + " "@ + summary@,
        ExecEvent::Finished { index, freed } => "#"@ + dec(index as nat) + " done, "@ + size_text(
            freed as nat,
        ) + " reclaimed"@,
        ExecEvent::Failed { index, error } => "#"@ + dec(index as nat) + " FAILED: "@ + error@,
        ExecEvent::AlreadyDone { index } => "#"@ + dec(index as nat) + " already done"@,
    }
}

/// A commit once the first `n` of some events have come in.
pub open spec fn heard(run: RunNote, events: Seq<ExecEvent>, n: int) -> RunNote
    decreases n,
{
    if n <= 0 {
        run
    } else {
        let before = heard(run, events, n - 1);
        RunNote {
            log: before.log.push(event_text(events[n - 1])),
            completed: if events[n - 1] is Started {
                before.completed
            } else {
                (before.completed + 1) as usize
            },
            ..before
        }
    }
}

/// What is said of a run that has ended.
pub open spec fn ended_text(run: RunNote, outcome: Result<Outcome, String>) -> Seq<char> {
    match outcome {
        Ok(o) => if o.paused {
            "paused after "@ + dec(o.done as nat) + " operations, "@ + size_text(o.freed as nat)
                + " reclaimed — resume with `ccdu resume "@ + run.plan_id + "`"@
        } else if o.failed > 0 {
            dec(o.done as nat) + " done, "@ + dec(o.failed as nat) + " failed, "@ + size_text(
                o.freed as nat,
            ) + " reclaimed"@
        } else {
            dec(o.done as nat) + " operations done, "@ + size_text(o.freed as nat) + " reclaimed"@
        },
        Err(e) => if run.remote {
            e@ + "; the run is recoverable there with `ccdu resume "@ + run.plan_id + "`"@
        } else {
            "could not run: "@ + e@
        },
    }
}

impl Face {
    /// With the plan built from what is staged, and about to be looked at.
    ///
    /// The plan of a tree that was fetched from elsewhere records where that is: an inode number
    /// means nothing on another machine, and a path that happens to exist on both would otherwise
    /// be acted on here.
    pub open spec fn refreshed(self, after: AfterLook, created: i64, host: Seq<char>) -> Face {
        let ids = ids_in(self.staged.dom());
        Face {
            plan: PlanNote {
                version: PLAN_VERSION,
                id: self.plan.id,
                created,
                host,
                root: self.tree.root(),
                ops: ops_for(self.tree, self.staged, ids),
            },
            plan_nodes: ids,
            pending: PendingNote::Look(after),
            ..self
        }
    }

    /// Whether the plan was built from what is staged, and is about to be looked at.
    pub open spec fn is_refreshed(self, was: Face, after: AfterLook) -> bool {
        &&& self == was.refreshed(after, self.plan.created, self.plan.host)
        &&& was.remote matches Some(host) ==> self.plan.host == host
    }

    pub open spec fn errors(self) -> nat {
        errors_among(self.findings, self.findings.len() as int)
    }

    /// About to write the plan out.
    pub open spec fn saving(self, ops: usize) -> Face {
        if self.plan.ops.len() == 0 {
            self.says("nothing staged"@)
        } else {
            Face {
                pending: PendingNote::Save { ops, dropped: (self.plan.ops.len() - ops) as usize },
                ..self
            }
        }
    }

    /// On the confirmation screen, unless the plan cannot run.
    pub open spec fn confirming(self) -> Face {
        if self.plan.ops.len() == 0 {
            self.says("nothing staged"@)
        } else if self.errors() > 0 {
            self.says(
                dec(self.errors()) + " error"@ + plural_text(self.errors())
                    + " to resolve before committing"@,
            )
        } else {
            Face { view: Screen::Confirm, ..self }
        }
    }

    /// On the screen that shows the plan.
    pub open spec fn showing_plan(self) -> Face {
        Face { view: Screen::Plan, plan_cursor: 0, ..self }
    }

    /// With the cursor kept within the plan, which has one operation less.
    pub open spec fn plan_shortened(self) -> Face {
        Face {
            plan_cursor: clamped(self.plan_cursor, self.plan.ops.len()),
            status: Some("unstaged"@),
            ..self
        }
    }
}

/// Whether what is asked for is to write out the plan that is about to be.
pub open spec fn asks_to_save(ask: Ask, face: Face) -> bool {
    match face.pending {
        PendingNote::Save { ops, .. } => ask matches Ask::Save(plan) && is_tidy(plan, face.plan)
            && plan.ops@.len() == ops,
        _ => ask is Nothing,
    }
}

fn copy_op(op: &Op) -> (r: Op)
    ensures
        op_note(r) == op_note(*op),
{
    match op {
        Op::Delete { path, ident, est_bytes } => Op::Delete {
            path: copy_bytes(path.as_slice()),
            ident: *ident,
            est_bytes: *est_bytes,
        },
        Op::Move { src, dst, ident, est_bytes, on_conflict } => Op::Move {
            src: copy_bytes(src.as_slice()),
            dst: copy_bytes(dst.as_slice()),
            ident: *ident,
            est_bytes: *est_bytes,
            on_conflict: *on_conflict,
        },
    }
}

fn copy_plan(plan: &Plan) -> (r: Plan)
    ensures
        plan_note(r) == plan_note(*plan),
{
    let mut ops: Vec<Op> = Vec::new();
    let mut i: usize = 0;
    while i < plan.ops.len()
        invariant
            i <= plan.ops@.len(),
            ops@.len() == i,
            forall|k: int| 0 <= k < i ==> op_note(#[trigger] ops@[k]) == op_note(plan.ops@[k]),
        decreases plan.ops.len() - i,
    {
        ops.push(copy_op(&plan.ops[i]));
        i += 1;
    }
    let r = Plan {
        version: plan.version,
        id: plan.id.clone(),
        created: plan.created,
        host: plan.host.clone(),
        root: copy_bytes(plan.root.as_slice()),
        ops,
    };
    proof {
        assert(plan_note(r) =~= plan_note(*plan));
    }
    r
}

fn plural(n: usize) -> (r: &'static str)
    ensures
        r@ == plural_text(n as nat),
{
    if n == 1 {
        ""
    } else {
        "s"
    }
}

fn errors_phrase(n: usize, rest: &str) -> (r: String)
    ensures
        r@ == dec(n as nat) + " error"@ + plural_text(n as nat) + rest@,
{
    let count = decimal(n as u64);
    let mut text = cat3(count.as_str(), " error", plural(n));
    text.append(rest);
    text
}

/// What is said of a plan that was written out.
fn saved_phrase(path: &str, ops: usize, dropped: usize, errors: usize) -> (r: String)
    ensures
        r@ == saved_text(path@, ops as nat, dropped as nat, errors as nat),
{
    let mut first = String::new();
    if dropped > 0 {
        let n = decimal(dropped as u64);
        first = cat3(", ", n.as_str(), " redundant dropped");
    }
    let mut second = String::new();
    if errors > 0 {
        let phrase = errors_phrase(errors, " to resolve");
        second = cat2(", ", phrase.as_str());
    }
    let n = decimal(ops as u64);
    let mut text = cat3("saved ", path, " (");
    text.append(n.as_str());
    text.append(" ops");
    text.append(first.as_str());
    text.append(second.as_str());
    text.append(")");
    proof {
        let count = dec(errors as nat);
        assert(second@ =~= (if errors > 0 {
            ", "@ + count + " error"@ + plural_text(errors as nat) + " to resolve"@
        } else {
            Seq::empty()
        }));
        assert(first@ =~= (if dropped > 0 {
            ", "@ + dec(dropped as nat) + " redundant dropped"@
        } else {
            Seq::empty()
        }));
    }
    text
}

/// The same text, put together another way.
fn event_phrase(e: &ExecEvent) -> (r: String)
    ensures
        r@ == event_text(*e),
{
    match e {
        ExecEvent::Started { index, summary } => {
            let n = decimal(*index as u64);
            let mut text = cat3("#", n.as_str(), " ");
            text.append(summary.as_str());
            text
        },
        ExecEvent::Finished { index, freed } => {
            let n = decimal(*index as u64);
            let size = human_size(*freed);
            let mut text = cat3("#", n.as_str(), " done, ");
            text.append(size.as_str());
            text.append(" reclaimed");
            text
        },
        ExecEvent::Failed { index, error } => {
            let n = decimal(*index as u64);
            let mut text = cat3("#", n.as_str(), " FAILED: ");
            text.append(error.as_str());
            text
        },
        ExecEvent::AlreadyDone { index } => {
            let n = decimal(*index as u64);
            cat3("#", n.as_str(), " already done")
        },
    }
}

fn ended_phrase(run: &Running, outcome: &Result<Outcome, String>) -> (r: String)
    ensures
        r@ == ended_text(run@, *outcome),
{
    match outcome {
        Ok(o) => {
            let done = decimal(o.done as u64);
            let freed = human_size(o.freed);
            if o.paused {
                let mut text = cat3("paused after ", done.as_str(), " operations, ");
                text.append(freed.as_str());
                text.append(" reclaimed — resume with `ccdu resume ");
                text.append(run.plan_id.as_str());
                text.append("`");
                text
            } else if o.failed > 0 {
                let failed = decimal(o.failed as u64);
                let mut text = cat3(done.as_str(), " done, ", failed.as_str());
                text.append(" failed, ");
                text.append(freed.as_str());
                text.append(" reclaimed");
                text
            } else {
                let mut text = cat3(done.as_str(), " operations done, ", freed.as_str());
                text.append(" reclaimed");
                text
            }
        },
        Err(e) => {
            if run.remote {
                let mut text = cat3(
                    e.as_str(),
                    "; the run is recoverable there with `ccdu resume ",
                    run.plan_id.as_str(),
                );
                text.append("`");
                text
            } else {
                cat2("could not run: ", e.as_str())
            }
        },
    }
}

/// Whether the plan is about to be written out, if there is anything in it.
pub open spec fn is_saving(was: Face, now: Face, ask: Ask) -> bool {
    if was.plan.ops.len() == 0 {
        now == was.says("nothing staged"@) && ask is Nothing
    } else {
        &&& now.pending is Save
        &&& now == was.saving(now.pending->Save_ops)
        &&& asks_to_save(ask, now)
    }
}

/// What a key does on the screen that shows the plan.
#[verifier::opaque]
pub open spec fn plan_step(was: Face, action: Action, now: Face, ask: Ask) -> bool {
    let len = was.plan.ops.len();
    match action {
        Action::Up => ask is Nothing && now == (Face {
            plan_cursor: if was.plan_cursor == 0 {
                0
            } else {
                (was.plan_cursor - 1) as usize
            },
            ..was
        }),
        Action::Down => ask is Nothing && now == (Face {
            plan_cursor: if was.plan_cursor + 1 < len {
                (was.plan_cursor + 1) as usize
            } else {
                was.plan_cursor
            },
            ..was
        }),
        Action::Top => ask is Nothing && now == (Face { plan_cursor: 0, ..was }),
        Action::Bottom => ask is Nothing && now == (Face {
            plan_cursor: if len == 0 {
                0
            } else {
                (len - 1) as usize
            },
            ..was
        }),
        Action::Unstage => if was.plan_cursor < was.plan_nodes.len() {
            let less = Face {
                staged: was.staged.remove(was.plan_nodes[was.plan_cursor as int]),
                ..was
            };
            ask is Look && now.is_refreshed(less, AfterLook::Unstaged)
        } else {
            ask is Nothing && now == was
        },
        Action::SavePlan => is_saving(was, now, ask),
        Action::Commit => ask is Look && now.is_refreshed(was, AfterLook::Commit),
        Action::ToggleHelp => ask is Nothing && now == (Face { show_help: true, ..was }),
        Action::TogglePlan | Action::Dismiss | Action::Leave | Action::Quit => ask is Nothing
            && now == (Face { view: Screen::Browse, ..was }),
        _ => ask is Nothing && now == was,
    }
}

/// What a key does on the confirmation screen. Only one of them commits.
#[verifier::opaque]
pub open spec fn confirm_step(was: Face, action: Action, now: Face, ask: Ask) -> bool {
    match action {
        Action::Confirm => ask matches Ask::Commit(plan) && is_tidy(plan, was.plan) && now == (
        Face {
            pending: PendingNote::Commit { total: plan.ops@.len() as usize, plan_id: was.plan.id },
            ..was
        }),
        Action::Dismiss | Action::Quit | Action::TogglePlan | Action::Leave => ask is Nothing
            && now == (Face {
            view: Screen::Plan,
            status: Some("not committed"@),
            ..was
        }),
        _ => ask is Nothing && now == was,
    }
}

/// What a key does while a commit runs, or is shown.
///
/// Pausing is the same mechanism recovery uses, so it is always safe, locally. A commit running on
/// another machine has its own switch, and reaching it would mean interrupting the stream that is
/// being read; that is said rather than nothing done.
#[verifier::opaque]
pub open spec fn running_step(was: Face, action: Action, now: Face, ask: Ask) -> bool {
    match was.run {
        None => ask is Nothing && now == (Face { view: Screen::Browse, ..was }),
        Some(run) => {
            let pausing = action == Action::TogglePlan || action == Action::Input('p');
            let leaving = action == Action::Dismiss || action == Action::Quit || action
                == Action::Leave;
            if pausing && run.summary is None && run.remote {
                ask is Nothing && now == was.says(
                    "this commit is running elsewhere; stop it there, then `ccdu resume "@
                        + run.plan_id + "`"@,
                )
            } else if pausing && run.summary is None {
                ask is Pause && now == (Face { run: Some(RunNote { paused: true, ..run }), ..was })
            } else if leaving && run.summary is Some {
                ask is Nothing && now == (Face { view: Screen::Browse, ..was })
            } else if action == Action::ToggleHelp {
                ask is Nothing && now == (Face { show_help: true, ..was })
            } else {
                ask is Nothing && now == was
            }
        },
    }
}

/// What follows once it is known what there is to say about the plan.
pub open spec fn goes_on(known: Face, after: AfterLook, now: Face, ask: Ask) -> bool {
    match after {
        AfterLook::Open => ask is Nothing && now == known.showing_plan(),
        AfterLook::Save => is_saving(known, now, ask),
        AfterLook::Commit => ask is Nothing && now == known.confirming(),
        AfterLook::Unstaged => ask is Nothing && now == known.plan_shortened(),
    }
}

/// What comes of having looked at what the plan is about.
pub open spec fn looked_step(was: Face, findings: Seq<Note>, now: Face, ask: Ask) -> bool {
    was.pending matches PendingNote::Look(after) && goes_on(
        Face { findings, pending: PendingNote::Nothing, ..was },
        after,
        now,
        ask,
    )
}

/// What was heard of a run, and how it ended.
pub open spec fn polled(
    was: Face,
    events: Seq<ExecEvent>,
    outcome: Option<Result<Outcome, String>>,
) -> Face {
    match was.run {
        Some(run) => if run.summary is Some {
            was
        } else {
            let so_far = heard(run, events, events.len() as int);
            match outcome {
                None => Face { run: Some(so_far), ..was },
                Some(result) => Face {
                    run: Some(RunNote { summary: Some(ended_text(so_far, result)), ..so_far }),
                    stale: true,
                    status: Some(
                        "files were removed — the listing is from before the commit; rerun ccdu to rescan"@,
                    ),
                    staged: Map::empty(),
                    marks: Set::empty(),
                    ..was
                },
            }
        },
        None => was,
    }
}

impl App {
    pub(crate) fn switch_to(&mut self, view: Screen)
        requires
            old(self).wf(),
        ensures
            final(self).wf(),
            final(self)@ == (Face { view, ..old(self)@ }),
    {
        self.view = view;
        proof {
            assert(self@ =~= (Face { view, ..old(self)@ }));
        }
    }

    pub(crate) fn open_help(&mut self)
        requires
            old(self).wf(),
        ensures
            final(self).wf(),
            final(self)@ == (Face { show_help: true, ..old(self)@ }),
    {
        self.show_help = true;
        proof {
            assert(self@ =~= (Face { show_help: true, ..old(self)@ }));
        }
    }

    fn put_plan_cursor(&mut self, n: usize)
        requires
            old(self).wf(),
        ensures
            final(self).wf(),
            final(self)@ == (Face { plan_cursor: n, ..old(self)@ }),
    {
        self.plan_cursor = n;
        proof {
            assert(self@ =~= (Face { plan_cursor: n, ..old(self)@ }));
        }
    }

    fn drop_staged(&mut self, id: NodeId)
        requires
            old(self).wf(),
        ensures
            final(self).wf(),
            final(self)@ == (Face { staged: old(self)@.staged.remove(id), ..old(self)@ }),
    {
        let ghost before = self.staged@;
        self.staged.remove(&id);
        proof {
            assert(self.staged@ =~= before.remove(id));
            assert(staged_notes(before.remove(id)) =~= staged_notes(before).remove(id));
            assert(self@ =~= (Face { staged: old(self)@.staged.remove(id), ..old(self)@ }));
        }
    }

    /// The operations that what is staged stands for, in node order: so a plan reads top-down the
    /// way the tree does, and two builds of the same staging produce the same file.
    fn build_ops(&self, ids: &Vec<NodeId>) -> (r: Vec<Op>)
        requires
            self.wf(),
            forall|i: int| 0 <= i < ids@.len() ==> self.staged@.contains_key(#[trigger] ids@[i]),
        ensures
            op_notes(r@) == ops_for(*self.tree, self@.staged, ids@),
            r@.len() == ids@.len(),
    {
        let ghost t = self@.tree;
        let mut ops: Vec<Op> = Vec::new();
        let mut i: usize = 0;
        while i < ids.len()
            invariant
                i <= ids@.len(),
                self.wf(),
                t == self@.tree,
                forall|i: int|
                    0 <= i < ids@.len() ==> self.staged@.contains_key(#[trigger] ids@[i]),
                ops@.len() == i,
                forall|k: int|
                    0 <= k < i ==> op_note(#[trigger] ops@[k]) == op_for(
                        t,
                        ids@[k],
                        self@.staged[ids@[k]],
                    ),
            decreases ids.len() - i,
        {
            let id: NodeId = ids[i];
            proof {
                assert(self.staged@.contains_key(ids@[i as int]));
                assert(self@.staged.contains_key(id));
            }
            let path = self.path_to(id);
            match self.staged.get(&id) {
                Some(s) => {
                    let op = match &s.kind {
                        StagedKind::Delete => Op::Delete {
                            path,
                            ident: s.ident,
                            est_bytes: s.est_bytes,
                        },
                        StagedKind::Move(dst) => Op::Move {
                            src: path,
                            dst: copy_bytes(dst.as_slice()),
                            ident: s.ident,
                            est_bytes: s.est_bytes,
                            on_conflict: Conflict::Fail,
                        },
                    };
                    proof {
                        assert(self@.staged[id] == s@);
                        assert(op_note(op) =~= op_for(t, id, s@));
                    }
                    ops.push(op);
                },
                None => {},
            }
            i += 1;
        }
        proof {
            assert(op_notes(ops@) =~= ops_for(t, self@.staged, ids@));
        }
        ops
    }

    /// Opens the plan: it is built, to be looked at and then shown.
    pub fn open_plan(&mut self) -> (r: Ask)
        requires
            old(self).wf(),
            old(self).pending is Nothing,
        ensures
            final(self).wf(),
            r is Look,
            final(self)@.is_refreshed(old(self)@, AfterLook::Open),
    {
        self.refresh_plan(AfterLook::Open)
    }

    /// Build the plan from what is staged. It is then to be looked at.
    pub fn refresh_plan(&mut self, after: AfterLook) -> (r: Ask)
        requires
            old(self).wf(),
            old(self).pending is Nothing,
        ensures
            final(self).wf(),
            r is Look,
            final(self)@.is_refreshed(old(self)@, after),
    {
        let ids = sorted_keys(&self.staged);
        proof {
            assert forall|i: int| 0 <= i < ids@.len() implies self.staged@.contains_key(
                #[trigger] ids@[i],
            ) by {
                assert(ids@.to_set().contains(ids@[i]));
            }
            assert forall|i: int| 0 <= i < ids@.len() implies self.tree.holds(
                #[trigger] ids@[i],
            ) by {
                assert(self.staged@.contains_key(ids@[i]));
                assert(self@.staged.contains_key(ids@[i]));
            }
            assert(self.staged@.dom() =~= self@.staged.dom());
        }
        let ops = self.build_ops(&ids);
        let root = copy_bytes(self.tree.root_path());
        let mut plan = match &self.remote {
            Some(host) => Plan::for_host(root, host.clone()),
            None => Plan::new(root),
        };
        plan.id = self.plan.id.clone();
        plan.ops = ops;
        self.plan = plan;
        self.plan_nodes = ids;
        self.pending = Pending::Look(after);
        proof {
            assert(self@ =~= old(self)@.refreshed(
                after,
                self@.plan.created,
                self@.plan.host,
            ));
        }
        Ask::Look
    }

    /// What the plan is about was looked at, unless it is on another machine.
    pub fn looked(&mut self, world: &World) -> (r: Ask)
        requires
            old(self).wf(),
            old(self).pending is Look,
            old(self).plan.version <= PLAN_VERSION,
            old(self).remote is None ==> world.looks@.len() == old(self).plan.ops@.len(),
        ensures
            final(self).wf(),
            are_findings(old(self)@, *world, final(self)@.findings),
            looked_step(old(self)@, final(self)@.findings, final(self)@, r),
    {
        let after = match &self.pending {
            Pending::Look(after) => *after,
            _ => AfterLook::Unstaged,
        };
        self.check_plan(world);
        self.forget_pending();
        self.go_on(after)
    }

    fn forget_pending(&mut self)
        requires
            old(self).wf(),
        ensures
            final(self).wf(),
            final(self).pending is Nothing,
            final(self)@ == (Face { pending: PendingNote::Nothing, ..old(self)@ }),
    {
        self.pending = Pending::Nothing;
        proof {
            assert(self@ =~= (Face { pending: PendingNote::Nothing, ..old(self)@ }));
        }
    }

    /// Does what the plan was looked at for.
    fn go_on(&mut self, after: AfterLook) -> (r: Ask)
        requires
            old(self).wf(),
            old(self).pending is Nothing,
        ensures
            final(self).wf(),
            goes_on(old(self)@, after, final(self)@, r),
            final(self)@.findings == old(self)@.findings,
    {
        match after {
            AfterLook::Open => {
                self.show_plan();
                Ask::Nothing
            },
            AfterLook::Save => self.save_plan(),
            AfterLook::Commit => {
                self.ask_to_commit();
                Ask::Nothing
            },
            AfterLook::Unstaged => {
                self.shorten_plan();
                Ask::Nothing
            },
        }
    }

    fn show_plan(&mut self)
        requires
            old(self).wf(),
        ensures
            final(self).wf(),
            final(self)@ == old(self)@.showing_plan(),
    {
        self.view = Screen::Plan;
        self.plan_cursor = 0;
        proof {
            assert(self@ =~= old(self)@.showing_plan());
        }
    }

    /// Keeps the cursor within the plan, which has one operation less.
    fn shorten_plan(&mut self)
        requires
            old(self).wf(),
        ensures
            final(self).wf(),
            final(self)@ == old(self)@.plan_shortened(),
    {
        let len: usize = self.plan.ops.len();
        let at: usize = if len == 0 {
            0
        } else if self.plan_cursor >= len {
            len - 1
        } else {
            self.plan_cursor
        };
        proof {
            assert(self@.plan.ops.len() == len);
        }
        self.put_plan_cursor(at);
        self.say(String::from_str("unstaged"));
    }

    /// Checks the plan against what was found on the machine.
    fn check_plan(&mut self, world: &World)
        requires
            old(self).wf(),
            old(self).plan.version <= PLAN_VERSION,
            old(self).remote is None ==> world.looks@.len() == old(self).plan.ops@.len(),
        ensures
            final(self).wf(),
            are_findings(old(self)@, *world, final(self)@.findings),
            final(self)@ == (Face { findings: final(self)@.findings, ..old(self)@ }),
            final(self).pending == old(self).pending,
            final(self).plan == old(self).plan,
    {
        let opts = ValidateOptions {
            allow_outside_root: false,
            protected: copy_paths(&self.protected),
            headroom_percent: self.headroom_percent,
            offline: self.remote.is_some(),
        };
        let findings = validate(&self.plan, &opts, world);
        proof {
            assert(checks(old(self)@, self.plan, opts));
        }
        self.findings = findings;
        proof {
            assert(self@ =~= (Face { findings: self@.findings, ..old(self)@ }));
        }
    }

    /// Move to the confirmation screen, unless validation says the plan cannot run.
    fn ask_to_commit(&mut self)
        requires
            old(self).wf(),
        ensures
            final(self).wf(),
            final(self)@ == old(self)@.confirming(),
    {
        if self.plan.ops.len() == 0 {
            self.say(String::from_str("nothing staged"));
            return ;
        }
        let errors: usize = self.error_total();
        if errors > 0 {
            let text = errors_phrase(errors, " to resolve before committing");
            self.say(text);
            return ;
        }
        self.view = Screen::Confirm;
        proof {
            assert(self@ =~= old(self)@.confirming());
        }
    }

    /// The plan without what is redundant in it.
    fn tidy_plan(&self) -> (r: (Plan, usize))
        ensures
            is_tidy(r.0, self@.plan),
            r.1 == self.plan.ops@.len() - r.0.ops@.len(),
            r.0.id@ == self.plan.id@,
    {
        let mut plan = copy_plan(&self.plan);
        let ghost ops = plan.ops@;
        let dropped = plan.normalize();
        proof {
            assert(op_notes(ops) == self@.plan.ops);
            assert(plan_note(plan) =~= (PlanNote { ops: op_notes(normalized(ops)), ..self@.plan }));
            assert(op_notes(ops).len() == ops.len());
        }
        (plan, dropped)
    }

    /// Write the plan out, less what is redundant in it. Dropping that is a courtesy, not a
    /// correction, so it is said: the saved plan is not silently smaller than what was reviewed.
    pub(crate) fn save_plan(&mut self) -> (r: Ask)
        requires
            old(self).wf(),
            old(self).pending is Nothing,
        ensures
            final(self).wf(),
            is_saving(old(self)@, final(self)@, r),
    {
        if self.plan.ops.len() == 0 {
            self.say(String::from_str("nothing staged"));
            return Ask::Nothing;
        }
        let (plan, dropped) = self.tidy_plan();
        let ops: usize = plan.ops.len();
        self.pending = Pending::Save { ops, dropped };
        proof {
            assert(self@ =~= old(self)@.saving(ops));
        }
        Ask::Save(plan)
    }

    /// The plan was written out, to the path given, or was not.
    ///
    /// A plan with errors is still worth saving: it is a document, and the errors may be fixable.
    /// But it must not look clean.
    pub fn saved(&mut self, reply: Result<String, String>)
        requires
            old(self).wf(),
            old(self).pending is Save,
        ensures
            final(self).wf(),
            ({
                let ops = old(self)@.pending->Save_ops;
                let dropped = old(self)@.pending->dropped;
                let text = match reply {
                    Ok(path) => saved_text(path@, ops as nat, dropped as nat, old(self)@.errors()),
                    Err(e) => "could not save: "@ + e@,
                };
                final(self)@ == (Face {
                    pending: PendingNote::Nothing,
                    status: Some(text),
                    ..old(self)@
                })
            }),
    {
        let mut pending = Pending::Nothing;
        std::mem::swap(&mut pending, &mut self.pending);
        match pending {
            Pending::Save { ops, dropped } => {
                let errors: usize = self.error_total();
                let text = match reply {
                    Ok(path) => saved_phrase(path.as_str(), ops, dropped, errors),
                    Err(e) => cat2("could not save: ", e.as_str()),
                };
                self.status = Some(text);
                proof {
                    assert(self@ =~= (Face {
                        pending: PendingNote::Nothing,
                        status: Some(text@),
                        ..old(self)@
                    }));
                }
            },
            _ => {},
        }
    }

    /// A key was pressed on the screen that shows the plan.
    pub(crate) fn plan_key(&mut self, action: Action) -> (r: Ask)
        requires
            old(self).wf(),
            old(self).pending is Nothing,
        ensures
            final(self).wf(),
            plan_step(old(self)@, action, final(self)@, r),
    {
        let len: usize = self.plan.ops.len();
        let at: usize = self.plan_cursor;
        proof {
            reveal(plan_step);
            assert(self@.plan.ops.len() == len);
        }
        match action {
            Action::Up => {
                self.put_plan_cursor(
                    if at > 0 {
                        at - 1
                    } else {
                        0
                    },
                );
                Ask::Nothing
            },
            Action::Down => {
                self.put_plan_cursor(
                    if at < len && at + 1 < len {
                        at + 1
                    } else {
                        at
                    },
                );
                Ask::Nothing
            },
            Action::Top => {
                self.put_plan_cursor(0);
                Ask::Nothing
            },
            Action::Bottom => {
                self.put_plan_cursor(
                    if len == 0 {
                        0
                    } else {
                        len - 1
                    },
                );
                Ask::Nothing
            },
            Action::Unstage => {
                if at < self.plan_nodes.len() {
                    let id: NodeId = self.plan_nodes[at];
                    self.drop_staged(id);
                    return self.refresh_plan(AfterLook::Unstaged);
                }
                Ask::Nothing
            },
            Action::SavePlan => self.save_plan(),
            Action::Commit => self.refresh_plan(AfterLook::Commit),
            Action::ToggleHelp => {
                self.open_help();
                Ask::Nothing
            },
            Action::TogglePlan | Action::Dismiss | Action::Leave | Action::Quit => {
                self.switch_to(Screen::Browse);
                Ask::Nothing
            },
            _ => Ask::Nothing,
        }
    }

    /// A key was pressed on the confirmation screen.
    ///
    /// Saving comes before running. That is not a convenience: if this process dies during the
    /// commit, the plan and its journal are what make the run resumable, and a plan that only
    /// existed in memory would take the record of what was half-done with it.
    pub(crate) fn confirm_key(&mut self, action: Action) -> (r: Ask)
        requires
            old(self).wf(),
            old(self).pending is Nothing,
        ensures
            final(self).wf(),
            confirm_step(old(self)@, action, final(self)@, r),
    {
        let ghost was = self@;
        proof {
            reveal(confirm_step);
        }
        match action {
            Action::Confirm => {
                let (plan, dropped) = self.tidy_plan();
                let total: usize = plan.ops.len();
                let plan_id = self.plan.id.clone();
                self.pending = Pending::Commit { total, plan_id };
                proof {
                    assert(self@ =~= (Face {
                        pending: PendingNote::Commit { total, plan_id: was.plan.id },
                        ..was
                    }));
                }
                Ask::Commit(plan)
            },
            Action::Dismiss | Action::Quit | Action::TogglePlan | Action::Leave => {
                self.view = Screen::Plan;
                self.status = Some(String::from_str("not committed"));
                proof {
                    assert(self@ =~= (Face {
                        view: Screen::Plan,
                        status: Some("not committed"@),
                        ..was
                    }));
                }
                Ask::Nothing
            },
            _ => Ask::Nothing,
        }
    }

    /// The plan was stored and runs, or could not be stored.
    pub fn committed(&mut self, reply: Result<(), String>)
        requires
            old(self).wf(),
            old(self).pending is Commit,
        ensures
            final(self).wf(),
            ({
                let was = Face { pending: PendingNote::Nothing, ..old(self)@ };
                match reply {
                    Err(e) => final(self)@ == (Face {
                        view: Screen::Plan,
                        status: Some(
                            if was.remote is Some {
                                "could not store the plan: "@ + e@
                            } else {
                                "could not save the plan: "@ + e@
                            },
                        ),
                        ..was
                    }),
                    Ok(_) => final(self)@ == (Face {
                        view: Screen::Running,
                        status: None,
                        run: Some(
                            RunNote {
                                log: Seq::empty(),
                                total: old(self)@.pending->total,
                                completed: 0,
                                summary: None,
                                plan_id: old(self)@.pending->plan_id,
                                remote: was.remote is Some,
                                paused: false,
                            },
                        ),
                        ..was
                    }),
                }
            }),
    {
        let mut pending = Pending::Nothing;
        std::mem::swap(&mut pending, &mut self.pending);
        let ghost was = Face { pending: PendingNote::Nothing, ..old(self)@ };
        proof {
            assert(self@ =~= was);
        }
        match pending {
            Pending::Commit { total, plan_id } => {
                match reply {
                    Err(e) => {
                        let text = if self.remote.is_some() {
                            cat2("could not store the plan: ", e.as_str())
                        } else {
                            cat2("could not save the plan: ", e.as_str())
                        };
                        self.view = Screen::Plan;
                        self.status = Some(text);
                        proof {
                            assert(self@ =~= (Face {
                                view: Screen::Plan,
                                status: Some(text@),
                                ..was
                            }));
                        }
                    },
                    Ok(_) => {
                        let run = Running {
                            log: Vec::new(),
                            total,
                            completed: 0,
                            summary: None,
                            plan_id,
                            remote: self.remote.is_some(),
                            paused: false,
                        };
                        proof {
                            assert(run@.log =~= Seq::<Seq<char>>::empty());
                        }
                        self.run = Some(run);
                        self.view = Screen::Running;
                        self.status = None;
                        proof {
                            assert(self@ =~= (Face {
                                view: Screen::Running,
                                status: None,
                                run: Some(run@),
                                ..was
                            }));
                        }
                    },
                }
            },
            _ => {},
        }
    }

    /// A key was pressed while a commit runs, or is shown.
    pub(crate) fn running_key(&mut self, action: Action) -> (r: Ask)
        requires
            old(self).wf(),
            old(self).pending is Nothing,
        ensures
            final(self).wf(),
            running_step(old(self)@, action, final(self)@, r),
    {
        proof {
            reveal(running_step);
        }
        let pausing = action == Action::TogglePlan || action == Action::Input('p');
        let leaving = action == Action::Dismiss || action == Action::Quit || action
            == Action::Leave;
        let (finished, remote, text): (bool, bool, String) = match &self.run {
            None => {
                self.switch_to(Screen::Browse);
                return Ask::Nothing;
            },
            Some(run) => (
                run.is_finished(),
                run.remote,
                cat3(
                    "this commit is running elsewhere; stop it there, then `ccdu resume ",
                    run.plan_id.as_str(),
                    "`",
                ),
            ),
        };
        if pausing && !finished && remote {
            self.say(text);
            Ask::Nothing
        } else if pausing && !finished {
            self.mark_paused();
            Ask::Pause
        } else if leaving && finished {
            self.switch_to(Screen::Browse);
            Ask::Nothing
        } else if action == Action::ToggleHelp {
            self.open_help();
            Ask::Nothing
        } else {
            Ask::Nothing
        }
    }

    /// Remembers that a pause was asked for.
    fn mark_paused(&mut self)
        requires
            old(self).wf(),
            old(self).run is Some,
        ensures
            final(self).wf(),
            final(self)@ == (Face {
                run: Some(RunNote { paused: true, ..old(self)@.run->0 }),
                ..old(self)@
            }),
    {
        let mut taken: Option<Running> = None;
        std::mem::swap(&mut taken, &mut self.run);
        match taken {
            None => {},
            Some(run) => {
                let paused = Running { paused: true, ..run };
                proof {
                    assert(paused@ =~= (RunNote { paused: true, ..run@ }));
                }
                self.run = Some(paused);
                proof {
                    assert(self@ =~= (Face {
                        run: Some(RunNote { paused: true, ..old(self)@.run->0 }),
                        ..old(self)@
                    }));
                }
            },
        }
    }

    /// Take in whatever the commit has reported.
    ///
    /// Once it has ended, whatever happened, entries are gone and the tree in memory is a
    /// description of a disk that no longer exists. That is said rather than numbers shown that
    /// are quietly wrong.
    pub fn poll_run(&mut self, events: &Vec<ExecEvent>, outcome: Option<Result<Outcome, String>>)
        requires
            old(self).wf(),
            old(self)@.run matches Some(run) ==> run.completed + events@.len() <= usize::MAX,
        ensures
            final(self).wf(),
            final(self)@ == polled(old(self)@, events@, outcome),
    {
        let ghost was = self@;
        let mut taken: Option<Running> = None;
        std::mem::swap(&mut taken, &mut self.run);
        let mut run = match taken {
            None => {
                proof {
                    assert(self@ =~= was);
                }
                return ;
            },
            Some(run) => run,
        };
        if run.is_finished() {
            self.run = Some(run);
            proof {
                assert(self@ =~= was);
            }
            return ;
        }
        let ghost note = run@;
        let mut i: usize = 0;
        while i < events.len()
            invariant
                i <= events@.len(),
                note.completed + events@.len() <= usize::MAX,
                run@ == heard(note, events@, i as int),
                run.completed <= note.completed + i,
            decreases events.len() - i,
        {
            let ghost before = run@;
            let ghost lines = run.log@;
            let e = &events[i];
            let text = event_phrase(e);
            run.log.push(text);
            match e {
                ExecEvent::Started { .. } => {},
                _ => {
                    run.completed = run.completed + 1;
                },
            }
            proof {
                assert(run@.log =~= before.log.push(text@));
                assert(run@ =~= heard(note, events@, i + 1));
            }
            i += 1;
        }
        match outcome {
            None => {
                self.run = Some(run);
                proof {
                    assert(self@ =~= polled(was, events@, outcome));
                }
            },
            Some(result) => {
                let ghost so_far = run@;
                let text = ended_phrase(&run, &result);
                run.summary = Some(text);
                proof {
                    assert(run@ =~= (RunNote { summary: Some(text@), ..so_far }));
                }
                self.run = Some(run);
                self.stale = true;
                self.status = Some(
                    String::from_str(
                        "files were removed — the listing is from before the commit; rerun ccdu to rescan",
                    ),
                );
                self.staged.clear();
                self.marks.clear();
                proof {
                    assert(self@.staged =~= Map::<NodeId, StagedNote>::empty());
                    assert(self@.marks =~= Set::<NodeId>::empty());
                    assert(self@ =~= polled(was, events@, outcome));
                }
            },
        }
    }
}

fn copy_paths(paths: &Vec<Vec<u8>>) -> (r: Vec<Vec<u8>>)
    ensures
        path_views(r@) == path_views(paths@),
{
    let mut out: Vec<Vec<u8>> = Vec::new();
    let mut i: usize = 0;
    while i < paths.len()
        invariant
            i <= paths@.len(),
            out@.len() == i,
            forall|k: int| 0 <= k < i ==> (#[trigger] out@[k])@ == paths@[k]@,
        decreases paths.len() - i,
    {
        out.push(copy_bytes(paths[i].as_slice()));
        i += 1;
    }
    proof {
        assert(path_views(out@) =~= path_views(paths@));
    }
    out
}

} // verus!
