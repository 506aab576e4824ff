//! What a key press does.

use vstd::prelude::*;

use crate::model::NodeId;
use crate::tui::app::dupes::dupes_step;
use crate::tui::app::review::{confirm_step, goes_on, plan_step, running_step};
use crate::tui::app::stage::{asks_about, unstaged_with};
use crate::tui::app::{
    is_sound, Action, AfterLook, App, Ask, Face, PendingNote, Prompt, PromptNote, Screen, Sort,
    StagedNote,
};

verus! {

/// What a key does while a prompt is open: almost every key is text.
#[verifier::opaque]
pub open spec fn prompt_step(was: Face, action: Action, now: Face, ask: Ask) -> bool {
    let p = was.prompt->0;
    match action {
        Action::Input(c) => ask is Nothing && now == (Face {
            prompt: Some(PromptNote { input: p.input.push(c), ..p }),
            ..was
        }),
        Action::Backspace => ask is Nothing && now == (Face {
            prompt: Some(
                PromptNote {
                    input: if p.input.len() == 0 {
                        p.input
                    } else {
                        p.input.drop_last()
                    },
                    ..p
                },
            ),
            ..was
        }),
        Action::Dismiss | Action::Quit => ask is Nothing && now == (Face { prompt: None, ..was }).says(
            "move cancelled"@,
        ),
        Action::Submit => now == was.submitted() && asks_about(ask, was, now),
        _ => ask is Nothing && now == was,
    }
}

/// What a key does while an overlay is open. Only one is at a time: stacking them makes both
/// unreadable.
#[verifier::opaque]
pub open spec fn overlay_step(was: Face, action: Action) -> Face {
    match action {
        Action::Dismiss | Action::Quit => Face { show_help: false, show_info: false, ..was },
        Action::ToggleHelp => Face { show_help: !was.show_help, show_info: false, ..was },
        Action::ToggleInfo => Face { show_info: !was.show_info, show_help: false, ..was },
        _ => was,
    }
}

/// With another column to sort by. The current one again flips the direction.
pub open spec fn sorted_by(was: Face, sort: Sort) -> Face {
    (if was.sort == sort {
        Face { reverse: !was.reverse, ..was }
    } else {
        Face { sort, reverse: false, ..was }
    }).relisted()
}

/// With the other kind of size.
pub open spec fn apparent_toggled(was: Face) -> Face {
    let other = Face { apparent: !was.apparent, ..was };
    if was.sort == Sort::Size {
        other.relisted()
    } else {
        other
    }
}

/// Whether a key moves the cursor.
pub open spec fn is_move(action: Action) -> bool {
    action is Up || action is Down || action is PageUp || action is PageDown || action is Top
        || action is Bottom
}

/// Whether a key changes how things are shown.
pub open spec fn is_display(action: Action) -> bool {
    action is Sort || action is ToggleApparent || action is CycleGraph || action is ToggleTreemap
        || action is ToggleInfo || action is ToggleHelp
}

/// With the cursor moved.
#[verifier::opaque]
pub open spec fn moved(was: Face, action: Action) -> Face {
    match action {
        Action::Up => was.at(was.cursor - 1),
        Action::Down => was.down_one(),
        Action::PageUp => was.at(was.cursor - 10),
        Action::PageDown => was.at(was.cursor + 10),
        Action::Top => was.at(0),
        _ => was.at(was.rows.len() - 1),
    }
}

/// With things shown in another way.
#[verifier::opaque]
pub open spec fn redisplayed(was: Face, action: Action) -> Face {
    match action {
        Action::Sort(s) => sorted_by(was, s),
        Action::ToggleApparent => apparent_toggled(was),
        Action::CycleGraph => Face { graph: was.graph.spec_next(), ..was },
        Action::ToggleTreemap => Face { show_treemap: !was.show_treemap, ..was },
        Action::ToggleInfo => Face { show_info: was.chosen() is Some, ..was },
        _ => Face { show_help: true, ..was },
    }
}

/// What any other key does in the listing.
///
/// Committing is reached through the plan, never straight from here: the review screen is the
/// safety, so it is not optional. Writing the plan out from here skips that screen, so the plan is
/// looked at first and what that found is said.
#[verifier::opaque]
pub open spec fn work_step(was: Face, action: Action, now: Face, ask: Ask) -> bool {
    match action {
        Action::Enter => ask is Nothing && now == was.entered(),
        Action::Leave => ask is Nothing && now == was.left(),
        Action::ToggleDupes => now == was.finding() && (if was.dupes matches Some(d) && d.scanning {
            ask is Nothing
        } else {
            ask is FindDupes
        }),
        Action::Mark => ask is Nothing && now == was.mark_toggled(),
        Action::StageDelete => now == was.staging(was.aims(), None) && asks_about(ask, was, now),
        Action::StageMove => ask is Nothing && now == was.asking_where(),
        Action::Unstage => ask is Nothing && now == was.unstaged(),
        Action::TogglePlan | Action::Commit => ask is Look && now.is_refreshed(
            was,
            AfterLook::Open,
        ),
        Action::SavePlan => ask is Look && now.is_refreshed(was, AfterLook::Save),
        Action::Quit => ask is Nothing && now == (Face { quit: true, ..was }),
        _ => ask is Nothing && now == was,
    }
}

/// What a key does in the listing.
pub open spec fn browse_step(was: Face, action: Action, now: Face, ask: Ask) -> bool {
    if is_move(action) {
        ask is Nothing && now == moved(was, action)
    } else if is_display(action) {
        ask is Nothing && now == redisplayed(was, action)
    } else {
        work_step(was, action, now, ask)
    }
}

/// What a key does.
pub open spec fn applied(was: Face, action: Action, now: Face, ask: Ask) -> bool {
    if was.prompt is Some {
        prompt_step(was, action, now, ask)
    } else if was.show_help || was.show_info {
        ask is Nothing && now == overlay_step(was, action)
    } else {
        match was.view {
            Screen::Dupes => dupes_step(was, action, now, ask),
            Screen::Plan => plan_step(was, action, now, ask),
            Screen::Confirm => confirm_step(was, action, now, ask),
            Screen::Running => running_step(was, action, now, ask),
            Screen::Browse => browse_step(was, action, now, ask),
        }
    }
}

impl App {
    fn put_prompt(&mut self, prompt: Option<Prompt>)
        requires
            old(self).wf(),
            prompt matches Some(p) ==> old(self)@.prompt matches Some(q) && p.targets@ == q.targets,
        ensures
            final(self).wf(),
            final(self)@ == (Face {
                prompt: match prompt {
                    Some(p) => Some(p@),
                    None => None,
                },
                ..old(self)@
            }),
    {
        self.prompt = prompt;
        proof {
            assert(self@ =~= (Face {
                prompt: match prompt {
                    Some(p) => Some(p@),
                    None => None,
                },
                ..old(self)@
            }));
        }
    }

    /// Changes what has been typed.
    fn put_input(&mut self, input: String)
        requires
            old(self).wf(),
            old(self).prompt is Some,
        ensures
            final(self).wf(),
            final(self)@ == (Face {
                prompt: Some(PromptNote { input: input@, ..old(self)@.prompt->0 }),
                ..old(self)@
            }),
    {
        let ghost was = self@;
        let mut taken: Option<Prompt> = None;
        std::mem::swap(&mut taken, &mut self.prompt);
        match taken {
            None => {},
            Some(p) => {
                let typed = Prompt { input, ..p };
                proof {
                    assert(typed@ =~= (PromptNote { input: input@, ..p@ }));
                }
                self.prompt = Some(typed);
                proof {
                    assert(self@ =~= (Face {
                        prompt: Some(PromptNote { input: input@, ..was.prompt->0 }),
                        ..was
                    }));
                }
            },
        }
    }

    fn prompt_key(&mut self, action: Action) -> (r: Ask)
        requires
            old(self).wf(),
            old(self).pending is Nothing,
            old(self).prompt is Some,
        ensures
            final(self).wf(),
            prompt_step(old(self)@, action, final(self)@, r),
    {
        proof {
            reveal(prompt_step);
        }
        let typed: String = match &self.prompt {
            Some(p) => p.input.clone(),
            None => String::new(),
        };
        match action {
            Action::Input(c) => {
                let mut input = typed;
                input.push(c);
                self.put_input(input);
                Ask::Nothing
            },
            Action::Backspace => {
                let n: usize = typed.as_str().unicode_len();
                if n == 0 {
                    self.put_input(typed);
                } else {
                    let shorter = typed.as_str().substring_char(0, n - 1);
                    proof {
                        assert(shorter@ =~= typed@.drop_last());
                    }
                    self.put_input(String::from_str(shorter));
                }
                Ask::Nothing
            },
            Action::Dismiss | Action::Quit => {
                self.put_prompt(None);
                self.say(String::from_str("move cancelled"));
                Ask::Nothing
            },
            Action::Submit => self.submit_move(),
            _ => Ask::Nothing,
        }
    }

    fn put_overlays(&mut self, help: bool, info: bool)
        requires
            old(self).wf(),
        ensures
            final(self).wf(),
            final(self)@ == (Face { show_help: help, show_info: info, ..old(self)@ }),
    {
        self.show_help = help;
        self.show_info = info;
        proof {
            assert(self@ =~= (Face { show_help: help, show_info: info, ..old(self)@ }));
        }
    }

    fn overlay_key(&mut self, action: Action)
        requires
            old(self).wf(),
        ensures
            final(self).wf(),
            final(self)@ == overlay_step(old(self)@, action),
    {
        proof {
            reveal(overlay_step);
        }
        match action {
            Action::Dismiss | Action::Quit => {
                self.put_overlays(false, false);
            },
            Action::ToggleHelp => {
                let help = !self.show_help;
                self.put_overlays(help, false);
            },
            Action::ToggleInfo => {
                let info = !self.show_info;
                self.put_overlays(false, info);
            },
            _ => {},
        }
    }

    fn sort_by(&mut self, sort: Sort)
        requires
            old(self).wf(),
        ensures
            final(self).wf(),
            final(self)@ == sorted_by(old(self)@, sort),
    {
        let ghost was = self@;
        if self.sort == sort {
            self.reverse = !self.reverse;
            proof {
                assert(self@ =~= (Face { reverse: !was.reverse, ..was }));
            }
        } else {
            self.sort = sort;
            self.reverse = false;
            proof {
                assert(self@ =~= (Face { sort, reverse: false, ..was }));
            }
        }
        proof {
            reveal(is_sound);
        }
        self.rebuild_rows();
    }

    fn toggle_apparent(&mut self)
        requires
            old(self).wf(),
        ensures
            final(self).wf(),
            final(self)@ == apparent_toggled(old(self)@),
    {
        let ghost was = self@;
        self.apparent = !self.apparent;
        proof {
            assert(self@ =~= (Face { apparent: !was.apparent, ..was }));
            reveal(is_sound);
        }
        if self.sort == Sort::Size {
            self.rebuild_rows();
        }
    }

    /// A key that moves the cursor was pressed in the listing.
    fn move_key(&mut self, action: Action)
        requires
            old(self).wf(),
            is_move(action),
        ensures
            final(self).wf(),
            final(self)@ == moved(old(self)@, action),
    {
        let at: usize = self.cursor;
        let n: usize = self.rows.len();
        proof {
            reveal(moved);
            assert(self@.rows.len() == n);
        }
        match action {
            Action::Up => self.go_to(
                if at >= 1 {
                    at - 1
                } else {
                    0
                },
            ),
            Action::Down => self.go_down(),
            Action::PageUp => self.go_to(
                if at >= 10 {
                    at - 10
                } else {
                    0
                },
            ),
            Action::PageDown => self.go_to(
                if at <= usize::MAX - 10 {
                    at + 10
                } else {
                    usize::MAX
                },
            ),
            Action::Top => self.go_to(0),
            _ => self.go_to(
                if n >= 1 {
                    n - 1
                } else {
                    0
                },
            ),
        }
    }

    fn cycle_graph(&mut self)
        requires
            old(self).wf(),
        ensures
            final(self).wf(),
            final(self)@ == (Face { graph: old(self)@.graph.spec_next(), ..old(self)@ }),
    {
        self.graph = self.graph.next();
        proof {
            assert(self@ =~= (Face { graph: old(self)@.graph.spec_next(), ..old(self)@ }));
        }
    }

    fn toggle_treemap(&mut self)
        requires
            old(self).wf(),
        ensures
            final(self).wf(),
            final(self)@ == (Face { show_treemap: !old(self)@.show_treemap, ..old(self)@ }),
    {
        self.show_treemap = !self.show_treemap;
        proof {
            assert(self@ =~= (Face { show_treemap: !old(self)@.show_treemap, ..old(self)@ }));
        }
    }

    fn open_info(&mut self)
        requires
            old(self).wf(),
        ensures
            final(self).wf(),
            final(self)@ == (Face { show_info: old(self)@.chosen() is Some, ..old(self)@ }),
    {
        self.show_info = self.selected().is_some();
        proof {
            assert(self@ =~= (Face { show_info: old(self)@.chosen() is Some, ..old(self)@ }));
        }
    }

    fn stop(&mut self)
        requires
            old(self).wf(),
        ensures
            final(self).wf(),
            final(self)@ == (Face { quit: true, ..old(self)@ }),
    {
        self.quit = true;
        proof {
            assert(self@ =~= (Face { quit: true, ..old(self)@ }));
        }
    }

    /// A key that changes how things are shown was pressed in the listing.
    fn display_key(&mut self, action: Action)
        requires
            old(self).wf(),
            is_display(action),
        ensures
            final(self).wf(),
            final(self)@ == redisplayed(old(self)@, action),
    {
        proof {
            reveal(redisplayed);
        }
        match action {
            Action::Sort(s) => self.sort_by(s),
            Action::ToggleApparent => self.toggle_apparent(),
            Action::CycleGraph => self.cycle_graph(),
            Action::ToggleTreemap => self.toggle_treemap(),
            Action::ToggleInfo => self.open_info(),
            _ => self.open_help(),
        }
    }

    fn work_key(&mut self, action: Action) -> (r: Ask)
        requires
            old(self).wf(),
            old(self).pending is Nothing,
        ensures
            final(self).wf(),
            work_step(old(self)@, action, final(self)@, r),
    {
        proof {
            reveal(work_step);
        }
        match action {
            Action::Enter => {
                self.enter();
                Ask::Nothing
            },
            Action::Leave => {
                self.leave();
                Ask::Nothing
            },
            Action::ToggleDupes => self.start_dupes(),
            Action::Mark => {
                self.toggle_mark();
                Ask::Nothing
            },
            Action::StageDelete => self.stage_delete(),
            Action::StageMove => {
                self.ask_move_destination();
                Ask::Nothing
            },
            Action::Unstage => {
                self.unstage();
                Ask::Nothing
            },
            Action::TogglePlan | Action::Commit => self.open_plan(),
            Action::SavePlan => self.refresh_plan(AfterLook::Save),
            Action::Quit => {
                self.stop();
                Ask::Nothing
            },
            _ => Ask::Nothing,
        }
    }

    fn browse_key(&mut self, action: Action) -> (r: Ask)
        requires
            old(self).wf(),
            old(self).pending is Nothing,
        ensures
            final(self).wf(),
            browse_step(old(self)@, action, final(self)@, r),
    {
        match action {
            Action::Up | Action::Down | Action::PageUp | Action::PageDown | Action::Top
            | Action::Bottom => {
                self.move_key(action);
                Ask::Nothing
            },
            Action::Sort(_) | Action::ToggleApparent | Action::CycleGraph | Action::ToggleTreemap
            | Action::ToggleInfo | Action::ToggleHelp => {
                self.display_key(action);
                Ask::Nothing
            },
            _ => self.work_key(action),
        }
    }

    /// A key was pressed. Gives back what that asks to be done outside.
    pub fn apply(&mut self, action: Action) -> (r: Ask)
        requires
            old(self).wf(),
            old(self).pending is Nothing,
        ensures
            final(self).wf(),
            applied(old(self)@, action, final(self)@, r),
    {
        if self.prompt.is_some() {
            return self.prompt_key(action);
        }
        if self.show_help || self.show_info {
            self.overlay_key(action);
            return Ask::Nothing;
        }
        match self.view {
            Screen::Dupes => self.dupes_key(action),
            Screen::Plan => self.plan_key(action),
            Screen::Confirm => self.confirm_key(action),
            Screen::Running => self.running_key(action),
            Screen::Browse => self.browse_key(action),
        }
    }
}

// ---------------------------------------------------------------------------------------------
// What keys cannot do

/// Whether nothing happened but to what is shown of the listing.
pub open spec fn is_quiet(was: Face, now: Face) -> bool {
    &&& now.view == was.view
    &&& now.staged == was.staged
    &&& now.plan == was.plan
    &&& now.run == was.run
    &&& now.pending == was.pending
}

proof fn lemma_moved(was: Face, action: Action)
    ensures
        is_quiet(was, moved(was, action)),
{
    reveal(moved);
}

proof fn lemma_redisplayed(was: Face, action: Action)
    ensures
        is_quiet(was, redisplayed(was, action)),
{
    reveal(redisplayed);
}

proof fn lemma_overlay(was: Face, action: Action)
    ensures
        is_quiet(was, overlay_step(was, action)),
{
    reveal(overlay_step);
}

/// Whether nothing was staged that was not before.
pub open spec fn stages_nothing(was: Face, now: Face) -> bool {
    forall|id: NodeId| #[trigger]
        now.staged.contains_key(id) ==> was.staged.contains_key(id) && now.staged[id]
            == was.staged[id]
}

proof fn lemma_unstaged_shrinks(staged: Map<NodeId, StagedNote>, targets: Seq<NodeId>, n: int)
    ensures
        forall|id: NodeId| #[trigger]
            unstaged_with(staged, targets, n).0.contains_key(id) ==> staged.contains_key(id)
                && unstaged_with(staged, targets, n).0[id] == staged[id],
    decreases n,
{
    if n > 0 {
        lemma_unstaged_shrinks(staged, targets, n - 1);
        let before = unstaged_with(staged, targets, n - 1).0;
        let after = unstaged_with(staged, targets, n).0;
        assert(after == before.remove(targets[n - 1]));
        assert forall|id: NodeId| #[trigger] after.contains_key(id) implies staged.contains_key(id)
            && after[id] == staged[id] by {
            assert(before.contains_key(id));
        }
    }
}

/// What a step may do at most, where nothing is being waited for.
pub open spec fn is_modest(was: Face, action: Action, now: Face, ask: Ask) -> bool {
    &&& !(ask is Commit)
    &&& now.view == Screen::Confirm ==> was.view == Screen::Confirm
    &&& now.pending == PendingNote::Look(AfterLook::Commit) ==> was.view == Screen::Plan && action
        == Action::Commit
    &&& was.read_only is Some ==> !(ask is Identify) && !(now.pending is Stage)
    &&& stages_nothing(was, now)
}

proof fn lemma_work(was: Face, action: Action, now: Face, ask: Ask)
    requires
        work_step(was, action, now, ask),
        was.view == Screen::Browse,
        was.pending == PendingNote::Nothing,
    ensures
        is_modest(was, action, now, ask),
{
    reveal(work_step);
    let targets = was.aims();
    lemma_unstaged_shrinks(was.staged, targets, targets.len() as int);
}

proof fn lemma_prompt(was: Face, action: Action, now: Face, ask: Ask)
    requires
        prompt_step(was, action, now, ask),
        was.prompt is Some,
        was.pending == PendingNote::Nothing,
    ensures
        is_modest(was, action, now, ask),
        now.cursor == was.cursor,
        now.dir == was.dir,
        now.view == was.view,
        now.quit == was.quit,
{
    reveal(prompt_step);
}

proof fn lemma_dupes(was: Face, action: Action, now: Face, ask: Ask)
    requires
        dupes_step(was, action, now, ask),
        was.view == Screen::Dupes,
        was.pending == PendingNote::Nothing,
    ensures
        is_modest(was, action, now, ask),
{
    reveal(dupes_step);
}

proof fn lemma_plan(was: Face, action: Action, now: Face, ask: Ask)
    requires
        plan_step(was, action, now, ask),
        was.view == Screen::Plan,
        was.pending == PendingNote::Nothing,
    ensures
        is_modest(was, action, now, ask),
{
    reveal(plan_step);
}

proof fn lemma_running(was: Face, action: Action, now: Face, ask: Ask)
    requires
        running_step(was, action, now, ask),
        was.view == Screen::Running,
        was.pending == PendingNote::Nothing,
    ensures
        is_modest(was, action, now, ask),
{
    reveal(running_step);
}

/// Anything but a confirmed commit is modest.
proof fn lemma_applied(was: Face, action: Action, now: Face, ask: Ask)
    requires
        applied(was, action, now, ask),
        was.pending == PendingNote::Nothing,
    ensures
        is_modest(was, action, now, ask) || (was.prompt is None && !was.show_help && !was.show_info
            && was.view == Screen::Confirm && confirm_step(was, action, now, ask)),
{
    if was.prompt is Some {
        lemma_prompt(was, action, now, ask);
    } else if was.show_help || was.show_info {
        lemma_overlay(was, action);
    } else {
        match was.view {
            Screen::Dupes => lemma_dupes(was, action, now, ask),
            Screen::Plan => lemma_plan(was, action, now, ask),
            Screen::Confirm => {},
            Screen::Running => lemma_running(was, action, now, ask),
            Screen::Browse => {
                if is_move(action) {
                    lemma_moved(was, action);
                } else if is_display(action) {
                    lemma_redisplayed(was, action);
                } else {
                    lemma_work(was, action, now, ask);
                }
            },
        }
    }
}

/// Nothing is committed but from the confirmation screen, by the one key that confirms.
pub proof fn law_only_confirmation_commits(was: Face, action: Action, now: Face, ask: Ask)
    requires
        applied(was, action, now, ask),
        was.pending == PendingNote::Nothing,
        ask is Commit,
    ensures
        was.view == Screen::Confirm,
        action == Action::Confirm,
        was.prompt is None,
        !was.show_help,
        !was.show_info,
{
    lemma_applied(was, action, now, ask);
    reveal(confirm_step);
}

/// The confirmation screen is only reached through the screen that shows the plan: no key leads
/// there, and none asks for the plan to be looked at for that, but the one that commits there.
pub proof fn law_confirmation_follows_review(was: Face, action: Action, now: Face, ask: Ask)
    requires
        applied(was, action, now, ask),
        was.pending == PendingNote::Nothing,
        was.view != Screen::Confirm,
    ensures
        now.view != Screen::Confirm,
        now.pending == PendingNote::Look(AfterLook::Commit) ==> was.view == Screen::Plan && action
            == Action::Commit,
{
    lemma_applied(was, action, now, ask);
}

/// A plan with errors in it, or nothing in it, is never up for confirmation.
pub proof fn law_errors_block_a_commit(known: Face, now: Face, ask: Ask)
    requires
        goes_on(known, AfterLook::Commit, now, ask),
        known.view != Screen::Confirm,
        known.errors() > 0 || known.plan.ops.len() == 0,
    ensures
        now.view != Screen::Confirm,
        !(ask is Commit),
{
}

/// A tree that cannot be changed from here is never staged against: no key asks what an entry of
/// it looks like, and nothing is staged that was not before.
pub proof fn law_read_only_is_never_staged(was: Face, action: Action, now: Face, ask: Ask)
    requires
        applied(was, action, now, ask),
        was.pending == PendingNote::Nothing,
        was.read_only is Some,
    ensures
        !(ask is Identify),
        !(now.pending is Stage),
        stages_nothing(was, now),
{
    lemma_applied(was, action, now, ask);
    reveal(confirm_step);
}

/// Keys are swallowed while a prompt is open: they neither move about nor end the program.
pub proof fn law_a_prompt_swallows_keys(was: Face, action: Action, now: Face, ask: Ask)
    requires
        applied(was, action, now, ask),
        was.pending == PendingNote::Nothing,
        was.prompt is Some,
    ensures
        now.cursor == was.cursor,
        now.dir == was.dir,
        now.view == was.view,
        now.quit == was.quit,
{
    lemma_prompt(was, action, now, ask);
}

/// Backing out of the confirmation changes nothing but the screen and what is said.
pub proof fn law_backing_out_changes_nothing(was: Face, action: Action, now: Face, ask: Ask)
    requires
        applied(was, action, now, ask),
        was.view == Screen::Confirm,
        was.prompt is None,
        action != Action::Confirm,
    ensures
        now.staged == was.staged,
        now.marks == was.marks,
        now.plan == was.plan,
        now.run == was.run,
        !(ask is Commit),
{
    reveal(confirm_step);
    reveal(overlay_step);
}

} // verus!
