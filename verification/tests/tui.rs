//! The browser, with a disk that is made of a map behind it.

use std::collections::BTreeMap;
use std::sync::Arc;

use ccdu::config::Config;
use ccdu::dup::{DupGroup, DupProgress};
use ccdu::exec::{ExecEvent, Outcome};
use ccdu::model::{flags, Kind, Meta, NodeId, Tree, ROOT};
use ccdu::path::{parent, path_starts_with};
use ccdu::plan::store::{list, Store};
use ccdu::plan::validate::{IdentLook, OpLook, World};
use ccdu::plan::{EntryKind, Ident, Op, Plan};
use ccdu::tui::app::stage::asking_failed;
use ccdu::tui::app::{Action, App, Ask, DupRow, Graph, Screen, Sort, StagedKind};
use ccdu::tui::keys::{is_quit, translate, Key, Press};
use ccdu::tui::treemap::squarify;
use ccdu::tui::ui::{
    annotation, centered, dup_line, dupes_title, footer, help, hunt_text, info, line_text,
    name_style, op_lines, plan_title, row_line, scan_text, spinner, tail, tile_label, Area, Tone,
};

/// What the browser finds when it asks.
struct Env {
    disk: BTreeMap<Vec<u8>, Ident>,
    plans: Vec<Plan>,
    ran: Vec<Plan>,
    dupes: Vec<DupGroup>,
}

fn meta(kind: Kind, apparent: u64, disk: u64) -> Meta {
    Meta { kind, apparent, disk, mtime: 1_000_000_000, dev: 1, ino: 0, nlink: 1 }
}

fn file(size: u64) -> Meta {
    meta(Kind::File, size, size.div_ceil(4096) * 4096)
}

fn dir() -> Meta {
    meta(Kind::Dir, 4096, 4096)
}

fn env_for(tree: &Tree) -> Env {
    let mut disk = BTreeMap::new();
    for id in 0..tree.len() as NodeId {
        let kind = if tree.node(id).is_dir() { EntryKind::Dir } else { EntryKind::File };
        let ident = Ident { dev: 1, ino: 100 + id as u64, size: 1, mtime: 1, kind };
        disk.insert(tree.path_of(id), ident);
    }
    Env { disk, plans: Vec::new(), ran: Vec::new(), dupes: Vec::new() }
}

fn app_for(tree: Tree) -> (Env, App) {
    let env = env_for(&tree);
    let home = Some(b"/home/me".to_vec());
    let store = Store::at(b"/state/plans".to_vec());
    (env, App::with_config(Arc::new(tree), &Config::default(), &home, 2, store))
}

/// A tree with a predictable shape: `big/` (3 files), `small/` (1 file), `tiny`.
fn fixture() -> (Env, App) {
    let mut t = Tree::new(b"/t".to_vec(), &dir());
    let big = t.push_child(ROOT, b"big", &dir(), 0, true);
    for name in [b"f0", b"f1", b"f2"] {
        t.push_child(big, name, &file(100_000), 0, true);
    }
    let small = t.push_child(ROOT, b"small", &dir(), 0, true);
    t.push_child(small, b"one", &file(10_000), 0, true);
    t.push_child(ROOT, b"tiny", &file(1), 0, true);
    t.finish();
    app_for(t)
}

impl Env {
    fn has(&self, path: &str) -> bool {
        self.disk.contains_key(path.as_bytes())
    }

    fn world(&self, app: &App) -> World {
        let looks = app
            .plan
            .ops
            .iter()
            .map(|op| {
                let dst = op.destination().map(|d| d.to_vec());
                let into = dst.as_ref().and_then(|d| parent(d));
                OpLook {
                    source: match self.disk.get(op.source()) {
                        Some(ident) => IdentLook::Found(*ident),
                        None => IdentLook::Gone,
                    },
                    parent_writable: true,
                    dst_exists: dst.is_some_and(|d| self.disk.contains_key(&d)),
                    dst_parent: into.as_ref().and_then(|d| self.disk.get(d)).copied(),
                    dst_parent_writable: true,
                }
            })
            .collect();
        World { host: app.plan.host.clone(), looks, spaces: Vec::new() }
    }

    /// Answer what a key press asked for.
    fn answer(&mut self, app: &mut App, ask: Ask) {
        let next = match ask {
            Ask::Nothing | Ask::StopDupes | Ask::Pause | Ask::FindDupes => return,
            Ask::Identify(paths) => {
                app.identified(Ok(paths.iter().map(|p| self.disk.get(p).copied()).collect()));
                return;
            }
            Ask::Look => app.looked(&self.world(app)),
            Ask::Save(plan) => {
                let (_, path) = app.store.save(&plan).unwrap();
                self.plans.push(plan);
                app.saved(Ok(String::from_utf8_lossy(&path).into_owned()));
                return;
            }
            Ask::Commit(plan) => {
                self.plans.push(plan.clone());
                self.ran.push(plan);
                app.committed(Ok(()));
                return;
            }
        };
        self.answer(app, next);
    }

    fn press(&mut self, app: &mut App, action: Action) {
        let ask = app.apply(action);
        self.answer(app, ask);
    }

    fn type_in(&mut self, app: &mut App, text: &str) {
        for c in text.chars() {
            self.press(app, Action::Input(c));
        }
    }

    /// Drive a commit to completion.
    fn commit_and_wait(&mut self, app: &mut App) {
        self.press(app, Action::Commit);
        assert_eq!(app.view, Screen::Confirm, "commit should stop at a confirmation");
        self.press(app, Action::Confirm);
        assert_eq!(app.view, Screen::Running);
        let plan = self.ran.last().unwrap().clone();
        let mut events = Vec::new();
        for (index, op) in plan.ops.iter().enumerate() {
            self.disk.retain(|k, _| !path_starts_with(k, op.source()));
            events.push(ExecEvent::Started { index, summary: op.summary() });
            events.push(ExecEvent::Finished { index, freed: op.est_bytes() });
        }
        app.poll_run(&events, None);
        assert!(!app.run.as_ref().unwrap().is_finished());
        let freed = plan.ops.iter().map(|op| op.est_bytes()).sum();
        let done = Outcome { done: plan.ops.len(), failed: 0, skipped: 0, freed, paused: false };
        app.poll_run(&Vec::new(), Some(Ok(done)));
        assert!(app.run.as_ref().unwrap().is_finished());
    }

    /// Drive a duplicate scan to completion.
    fn find_dupes(&mut self, app: &mut App) {
        assert!(matches!(app.apply(Action::ToggleDupes), Ask::FindDupes));
        assert_eq!(app.view, Screen::Dupes);
        assert!(app.dupes.as_ref().unwrap().is_scanning());
        app.poll_dupes(Some(DupProgress { candidates: 3, hashed: 1, bytes_read: 10 }), None);
        assert_eq!(app.dupes.as_ref().unwrap().latest.hashed, 1);
        app.poll_dupes(None, Some(self.dupes.clone()));
        assert!(!app.dupes.as_ref().unwrap().is_scanning());
    }
}

fn name_of(app: &App, id: NodeId) -> String {
    String::from_utf8_lossy(app.tree.name(id)).into_owned()
}

fn row_names(app: &App) -> Vec<String> {
    app.rows.iter().map(|&id| name_of(app, id)).collect()
}

#[test]
fn opens_sorted_by_size_descending() {
    let (_, app) = fixture();
    assert_eq!(row_names(&app), ["big", "small", "tiny"]);
}

#[test]
fn repeating_a_sort_key_reverses_it() {
    let (mut env, mut app) = fixture();
    env.press(&mut app, Action::Sort(Sort::Name));
    assert_eq!(row_names(&app), ["big", "small", "tiny"]);
    env.press(&mut app, Action::Sort(Sort::Name));
    assert_eq!(row_names(&app), ["tiny", "small", "big"]);
    env.press(&mut app, Action::Sort(Sort::Size));
    assert_eq!(row_names(&app), ["big", "small", "tiny"]);
    env.press(&mut app, Action::Sort(Sort::Items));
    assert_eq!(row_names(&app), ["big", "small", "tiny"]);
    assert_eq!(Sort::Mtime.label(), "mtime");
}

#[test]
fn entering_and_leaving_restores_the_cursor() {
    let (mut env, mut app) = fixture();
    env.press(&mut app, Action::Down);
    assert_eq!(name_of(&app, app.selected().unwrap()), "small");

    env.press(&mut app, Action::Enter);
    assert_eq!(row_names(&app), ["one"]);

    env.press(&mut app, Action::Leave);
    assert_eq!(name_of(&app, app.selected().unwrap()), "small", "cursor did not come back");
}

#[test]
fn files_and_empty_directories_are_not_enterable() {
    let (mut env, mut app) = fixture();
    env.press(&mut app, Action::Bottom);
    let before = app.dir;
    env.press(&mut app, Action::Enter);
    assert_eq!(app.dir, before);
}

#[test]
fn leaving_the_root_does_nothing() {
    let (mut env, mut app) = fixture();
    env.press(&mut app, Action::Leave);
    assert_eq!(app.dir, ROOT);
    assert_eq!(row_names(&app), ["big", "small", "tiny"]);
}

#[test]
fn cursor_stays_inside_the_listing() {
    let (mut env, mut app) = fixture();
    for _ in 0..10 {
        env.press(&mut app, Action::Up);
    }
    assert_eq!(app.cursor, 0);
    for _ in 0..10 {
        env.press(&mut app, Action::Down);
    }
    assert_eq!(app.cursor, app.rows.len() - 1);
    env.press(&mut app, Action::PageUp);
    assert_eq!(app.cursor, 0);
    env.press(&mut app, Action::PageDown);
    assert_eq!(app.cursor, app.rows.len() - 1);
}

#[test]
fn apparent_and_disk_sizes_can_disagree() {
    let (mut env, mut app) = fixture();
    let tiny = *app.rows.last().unwrap();
    assert_eq!(app.size_of(tiny), app.tree.node(tiny).disk);
    env.press(&mut app, Action::ToggleApparent);
    assert_eq!(app.size_of(tiny), 1);
}

#[test]
fn only_one_overlay_is_open_at_a_time() {
    let (mut env, mut app) = fixture();
    env.press(&mut app, Action::ToggleInfo);
    env.press(&mut app, Action::ToggleHelp);
    assert!(app.show_help && !app.show_info);
    env.press(&mut app, Action::ToggleInfo);
    assert!(app.show_info && !app.show_help);
}

#[test]
fn overlays_swallow_navigation() {
    let (mut env, mut app) = fixture();
    env.press(&mut app, Action::ToggleHelp);
    env.press(&mut app, Action::Down);
    assert_eq!(app.cursor, 0, "help overlay let a keypress through");
    env.press(&mut app, Action::Dismiss);
    env.press(&mut app, Action::Down);
    assert_eq!(app.cursor, 1);
}

#[test]
fn staging_a_delete_touches_nothing_on_disk() {
    let (mut env, mut app) = fixture();
    env.press(&mut app, Action::StageDelete);

    assert_eq!(app.staged.len(), 1);
    assert!(env.has("/t/big"), "staging must not delete anything");
    assert!(app.staged_bytes() >= 300_000);
}

#[test]
fn staging_something_that_is_gone_says_so() {
    let (mut env, mut app) = fixture();
    env.disk.remove(b"/t/big".as_slice());
    env.press(&mut app, Action::StageDelete);
    assert!(app.staged.is_empty());
    assert_eq!(app.status.as_deref(), Some("cannot stage /t/big: it is no longer there"));
    // Asking may fail as a whole.
    assert!(matches!(app.apply(Action::StageDelete), Ask::Identify(_)));
    app.identified(Err(asking_failed("server", "connection closed")));
    assert!(app.status.as_deref().unwrap().contains("connection closed"));
    assert!(app.staged.is_empty());
}

#[test]
fn marking_applies_an_action_to_every_marked_entry() {
    let (mut env, mut app) = fixture();
    env.press(&mut app, Action::Mark); // marks "big", cursor moves to "small"
    env.press(&mut app, Action::Mark); // marks "small", cursor moves to "tiny"
    env.press(&mut app, Action::StageDelete);

    assert_eq!(app.staged.len(), 2);
    assert!(app.marks.is_empty(), "marks should clear once acted on");
    let names: Vec<_> = app.staged.keys().map(|&id| name_of(&app, id)).collect();
    assert!(names.contains(&"big".to_string()) && names.contains(&"small".to_string()));
}

#[test]
fn unstaging_removes_what_staging_added() {
    let (mut env, mut app) = fixture();
    env.press(&mut app, Action::StageDelete);
    assert_eq!(app.staged.len(), 1);
    env.press(&mut app, Action::Unstage);
    assert!(app.staged.is_empty());
}

#[test]
fn a_move_prompt_stages_one_destination_per_entry() {
    let (mut env, mut app) = fixture();
    env.press(&mut app, Action::Mark);
    env.press(&mut app, Action::Mark);
    env.press(&mut app, Action::StageMove);
    assert!(app.prompt.is_some());

    env.type_in(&mut app, "/mnt/archive");
    env.press(&mut app, Action::Submit);

    assert!(app.prompt.is_none());
    assert_eq!(app.staged.len(), 2);
    let mut destinations: Vec<String> = app
        .staged
        .values()
        .map(|s| match &s.kind {
            StagedKind::Move(dst) => String::from_utf8_lossy(dst).into_owned(),
            StagedKind::Delete => unreachable!(),
        })
        .collect();
    destinations.sort();
    assert_eq!(destinations, ["/mnt/archive/big", "/mnt/archive/small"]);
}

#[test]
fn a_relative_move_destination_is_refused() {
    let (mut env, mut app) = fixture();
    env.press(&mut app, Action::StageMove);
    env.type_in(&mut app, "somewhere");
    env.press(&mut app, Action::Submit);

    assert!(app.staged.is_empty());
    assert!(app.status.as_deref().unwrap().contains("absolute"), "{:?}", app.status);
}

#[test]
fn cancelling_the_prompt_stages_nothing() {
    let (mut env, mut app) = fixture();
    env.press(&mut app, Action::StageMove);
    env.type_in(&mut app, "/mnt/x");
    env.press(&mut app, Action::Dismiss);

    assert!(app.prompt.is_none());
    assert!(app.staged.is_empty());
}

#[test]
fn the_prompt_swallows_keys_that_would_otherwise_navigate() {
    let (mut env, mut app) = fixture();
    env.press(&mut app, Action::StageMove);
    env.press(&mut app, Action::Down);
    env.press(&mut app, Action::Quit);
    // Quit inside a prompt cancels the prompt, it does not exit the program.
    assert!(!app.quit);
    assert_eq!(app.cursor, 0);
}

#[test]
fn the_prompt_can_be_corrected() {
    let (mut env, mut app) = fixture();
    env.press(&mut app, Action::StageMove);
    env.type_in(&mut app, "/mnt/xy");
    env.press(&mut app, Action::Backspace);
    assert_eq!(app.prompt.as_ref().unwrap().input, "/mnt/x");
    assert_eq!(footer(&app, 80), " move big into directory: /mnt/x");
}

#[test]
fn the_plan_view_reflects_what_is_staged() {
    let (mut env, mut app) = fixture();
    env.press(&mut app, Action::StageDelete);
    env.press(&mut app, Action::TogglePlan);

    assert_eq!(app.view, Screen::Plan);
    assert_eq!(app.plan.ops.len(), 1);
    assert!(app.plan.ops[0].is_delete());
    assert!(!app.has_errors(), "{:?}", app.findings);
}

/// Stages a move that has nowhere to go.
fn stage_a_bad_move(env: &mut Env, app: &mut App) {
    env.press(app, Action::StageMove);
    env.type_in(app, "/");
    env.press(app, Action::Submit);
}

#[test]
fn the_plan_view_reports_a_staged_move_onto_a_protected_path() {
    let (mut env, mut app) = fixture();
    stage_a_bad_move(&mut env, &mut app);
    env.press(&mut app, Action::TogglePlan);

    // "/" + "big" is /big, and nothing is known of "/" here. Either way this must not be
    // committable.
    assert!(app.has_errors(), "{:?}", app.findings);
}

#[test]
fn unstaging_from_the_plan_view_updates_the_plan() {
    let (mut env, mut app) = fixture();
    env.press(&mut app, Action::Mark);
    env.press(&mut app, Action::Mark);
    env.press(&mut app, Action::StageDelete);
    env.press(&mut app, Action::TogglePlan);
    assert_eq!(app.plan.ops.len(), 2);

    env.press(&mut app, Action::Unstage);
    assert_eq!(app.plan.ops.len(), 1);
    assert_eq!(app.staged.len(), 1);
}

#[test]
fn nested_staging_is_reported_as_redundant_not_as_an_error() {
    let (mut env, mut app) = fixture();
    env.press(&mut app, Action::StageDelete); // "big/"
    env.press(&mut app, Action::Enter);
    env.press(&mut app, Action::StageDelete); // "big/f?" inside it
    env.press(&mut app, Action::TogglePlan);

    assert_eq!(app.plan.ops.len(), 2);
    assert!(!app.has_errors(), "{:?}", app.findings);
    assert!(app.findings.iter().any(|f| f.message.contains("redundant")), "{:?}", app.findings);
}

#[test]
fn committing_deletes_what_was_staged_and_nothing_else() {
    let (mut env, mut app) = fixture();
    env.press(&mut app, Action::StageDelete); // "big/"
    env.press(&mut app, Action::TogglePlan);
    env.commit_and_wait(&mut app);

    let run = app.run.as_ref().unwrap();
    assert!(run.summary.as_deref().unwrap().contains("1 operations done"), "{:?}", run.summary);
    assert!(!env.has("/t/big"), "the staged directory survived");
    assert!(env.has("/t/small/one"), "something unstaged was deleted");
    assert!(env.has("/t/tiny"));
}

#[test]
fn a_commit_leaves_a_resumable_plan_behind() {
    let (mut env, mut app) = fixture();
    env.press(&mut app, Action::StageDelete);
    env.press(&mut app, Action::TogglePlan);
    env.commit_and_wait(&mut app);

    // The plan outlives the run, which is what makes a crash recoverable.
    let listed = list(&env.plans);
    assert_eq!(listed.len(), 1);
    assert_eq!(listed[0].id, app.run.as_ref().unwrap().plan_id);
}

#[test]
fn backing_out_of_the_confirmation_changes_nothing() {
    let (mut env, mut app) = fixture();
    env.press(&mut app, Action::StageDelete);
    env.press(&mut app, Action::TogglePlan);
    env.press(&mut app, Action::Commit);
    assert_eq!(app.view, Screen::Confirm);

    env.press(&mut app, Action::Dismiss);
    assert_eq!(app.view, Screen::Plan);
    assert!(env.has("/t/big"), "backing out still deleted something");
    assert!(app.run.is_none());
    assert_eq!(app.staged.len(), 1, "backing out should not unstage anything");
}

#[test]
fn a_plan_with_errors_cannot_be_committed() {
    let (mut env, mut app) = fixture();
    stage_a_bad_move(&mut env, &mut app);
    env.press(&mut app, Action::TogglePlan);
    env.press(&mut app, Action::Commit);

    assert_eq!(app.view, Screen::Plan, "a plan with errors reached the confirmation screen");
    assert!(app.status.as_deref().unwrap_or("").contains("to resolve"), "{:?}", app.status);
}

#[test]
fn committing_marks_the_tree_stale() {
    let (mut env, mut app) = fixture();
    assert!(!app.stale);

    env.press(&mut app, Action::StageDelete);
    env.press(&mut app, Action::TogglePlan);
    env.commit_and_wait(&mut app);

    // The sizes in memory now describe a disk that no longer exists.
    assert!(app.stale, "the browser would keep showing totals for deleted files");
    assert!(app.staged.is_empty(), "staging survived the commit that consumed it");
}

#[test]
fn committing_is_only_reachable_through_the_review_screen() {
    let (mut env, mut app) = fixture();
    env.press(&mut app, Action::StageDelete);

    // `c` from the browser opens the plan rather than the confirmation.
    env.press(&mut app, Action::Commit);
    assert_eq!(app.view, Screen::Plan);
    assert!(env.has("/t/big"));
}

#[test]
fn a_commit_can_be_paused_and_says_how_to_go_on() {
    let (mut env, mut app) = fixture();
    env.press(&mut app, Action::StageDelete);
    env.press(&mut app, Action::TogglePlan);
    env.press(&mut app, Action::Commit);
    env.press(&mut app, Action::Confirm);
    assert!(matches!(app.apply(Action::TogglePlan), Ask::Pause));
    assert!(app.run.as_ref().unwrap().is_pausing());
    let id = app.run.as_ref().unwrap().plan_id.clone();
    let paused = Outcome { done: 0, failed: 0, skipped: 0, freed: 1024, paused: true };
    let failed = ExecEvent::Failed { index: 0, error: "busy".to_string() };
    app.poll_run(&vec![failed, ExecEvent::AlreadyDone { index: 0 }], Some(Ok(paused)));
    let run = app.run.as_ref().unwrap();
    assert_eq!(run.log, ["#0 FAILED: busy", "#0 already done"]);
    assert_eq!(
        run.summary.as_deref(),
        Some(
            format!("paused after 0 operations, 1.0 KiB reclaimed — resume with `ccdu resume {id}`")
                .as_str()
        )
    );
}

#[test]
fn a_commit_that_cannot_start_says_why() {
    let (mut env, mut app) = fixture();
    env.press(&mut app, Action::StageDelete);
    env.press(&mut app, Action::TogglePlan);
    env.press(&mut app, Action::Commit);
    assert!(matches!(app.apply(Action::Confirm), Ask::Commit(_)));
    app.committed(Err("disk full".to_string()));
    assert!(app.run.is_none());
    assert!(app.status.as_deref().unwrap().contains("disk full"), "{:?}", app.status);
}

/// Three copies of one file plus an unrelated one.
fn dup_fixture() -> (Env, App) {
    let mut t = Tree::new(b"/t".to_vec(), &dir());
    let sub = t.push_child(ROOT, b"sub", &dir(), 0, true);
    let a = t.push_child(ROOT, b"copy-a", &file(30_000), 0, true);
    let b = t.push_child(sub, b"copy-b", &file(30_000), 0, true);
    let c = t.push_child(sub, b"copy-c", &file(30_000), flags::HARDLINK, true);
    t.push_child(ROOT, b"unique", &file(30_001), 0, true);
    t.finish();
    let (mut env, app) = app_for(t);
    env.dupes = vec![DupGroup { nodes: vec![a, b, c], size: 30_000, wasted: 65_536 }];
    (env, app)
}

#[test]
fn the_duplicates_view_groups_identical_files() {
    let (mut env, mut app) = dup_fixture();
    env.find_dupes(&mut app);

    let dupes = app.dupes.as_ref().unwrap();
    assert_eq!(dupes.groups.len(), 1, "{:?}", dupes.groups);
    assert_eq!(dupes.groups[0].nodes.len(), 3);
    // One header plus three files.
    assert_eq!(dupes.rows.len(), 4);
    assert!(matches!(dupes.rows[0], DupRow::Header(0)));
}

#[test]
fn the_cursor_skips_group_headers() {
    let (mut env, mut app) = dup_fixture();
    env.find_dupes(&mut app);

    // It starts on a file, not the header above it.
    assert!(app.dupes.as_ref().unwrap().selected().is_some());
    for _ in 0..5 {
        env.press(&mut app, Action::Down);
        assert!(
            app.dupes.as_ref().unwrap().selected().is_some(),
            "the cursor landed on a header"
        );
    }
    for _ in 0..10 {
        env.press(&mut app, Action::Up);
        assert!(app.dupes.as_ref().unwrap().selected().is_some());
    }
}

#[test]
fn staging_all_but_the_first_never_empties_a_group() {
    let (mut env, mut app) = dup_fixture();
    env.find_dupes(&mut app);

    env.press(&mut app, Action::StageGroupRest);

    assert_eq!(app.staged.len(), 2, "one copy must survive");
    let kept = app.dupes.as_ref().unwrap().groups[0].nodes[0];
    assert!(!app.staged.contains_key(&kept), "the kept copy was staged for deletion");
    // Still nothing on disk has changed.
    assert!(env.has("/t/copy-a"));
}

#[test]
fn marking_in_the_duplicates_view_stages_those_copies() {
    let (mut env, mut app) = dup_fixture();
    env.find_dupes(&mut app);

    env.press(&mut app, Action::Mark);
    env.press(&mut app, Action::Mark);
    env.press(&mut app, Action::StageDelete);

    assert_eq!(app.staged.len(), 2);
    assert!(app.marks.is_empty());
}

#[test]
fn duplicates_can_be_staged_and_then_reviewed_as_a_plan() {
    let (mut env, mut app) = dup_fixture();
    env.find_dupes(&mut app);

    env.press(&mut app, Action::StageGroupRest);
    env.press(&mut app, Action::TogglePlan);

    assert_eq!(app.view, Screen::Plan);
    assert_eq!(app.plan.ops.len(), 2);
    assert!(app.plan.ops.iter().all(|op| op.is_delete()));
    assert!(!app.has_errors(), "{:?}", app.findings);
}

#[test]
fn leaving_the_duplicates_view_returns_to_the_browser() {
    let (mut env, mut app) = dup_fixture();
    env.find_dupes(&mut app);
    env.press(&mut app, Action::Dismiss);
    assert_eq!(app.view, Screen::Browse);
    assert!(!app.quit, "leaving a subview should not quit the program");
}

#[test]
fn the_treemap_toggles_without_disturbing_the_listing() {
    let (mut env, mut app) = fixture();
    let before = app.rows.clone();
    assert!(!app.show_treemap);

    env.press(&mut app, Action::ToggleTreemap);
    assert!(app.show_treemap);
    assert_eq!(app.rows, before);

    env.press(&mut app, Action::ToggleTreemap);
    assert!(!app.show_treemap);
}

#[test]
fn a_read_only_tree_refuses_staging_and_says_why() {
    let (mut env, mut app) = fixture();
    app.read_only = Some("these files are on server".to_string());

    env.press(&mut app, Action::StageDelete);
    assert!(app.staged.is_empty(), "a tree we cannot act on was staged against");
    assert_eq!(app.status.as_deref(), Some("these files are on server"));

    // A move is refused for the same reason, at the same point.
    env.press(&mut app, Action::StageMove);
    env.type_in(&mut app, "/mnt/elsewhere");
    env.press(&mut app, Action::Submit);
    assert!(app.staged.is_empty());
    assert!(env.has("/t/big"));
}

#[test]
fn saving_from_the_browser_works_without_visiting_the_plan_view() {
    let (mut env, mut app) = fixture();
    env.press(&mut app, Action::StageDelete);
    env.press(&mut app, Action::SavePlan);

    assert!(app.status.as_deref().unwrap_or("").contains("saved"), "{:?}", app.status);
    assert_eq!(list(&env.plans).len(), 1);
}

#[test]
fn saving_a_plan_with_errors_says_so_rather_than_looking_clean() {
    let (mut env, mut app) = fixture();
    stage_a_bad_move(&mut env, &mut app);
    env.press(&mut app, Action::SavePlan);

    let status = app.status.clone().unwrap_or_default();
    assert!(status.contains("saved"), "{status}");
    assert!(status.contains("to resolve"), "{status}");
}

#[test]
fn saving_writes_a_normalized_plan_to_the_store() {
    let (mut env, mut app) = fixture();
    env.press(&mut app, Action::StageDelete); // "big/"
    env.press(&mut app, Action::Enter);
    env.press(&mut app, Action::Mark);
    env.press(&mut app, Action::Mark);
    env.press(&mut app, Action::Mark);
    env.press(&mut app, Action::StageDelete); // its three children too
    env.press(&mut app, Action::TogglePlan);
    assert_eq!(app.plan.ops.len(), 4);

    env.press(&mut app, Action::SavePlan);
    let status = app.status.clone().unwrap_or_default();
    assert!(status.contains("saved"), "{status}");
    assert!(status.contains("3 redundant dropped"), "{status}");

    let listed = list(&env.plans);
    assert_eq!(listed.len(), 1);
    assert_eq!(listed[0].ops, 1, "only the parent deletion should survive");
}

#[test]
fn a_plan_for_a_remote_tree_belongs_to_the_remote() {
    let (mut env, mut app) = fixture();
    app.remote = Some("server".to_string());
    env.press(&mut app, Action::StageDelete);
    env.press(&mut app, Action::TogglePlan);
    assert_eq!(app.plan.host, "server");
    assert!(!app.has_errors(), "{:?}", app.findings);

    // Built the way the browser builds one for a remote tree.
    let plan = Plan::for_host(b"/t".to_vec(), "server".to_string());
    assert_eq!(plan.host, "server");
    let store = Store::open_default(b"/remote/state");
    let (_, path) = store.save(&plan).unwrap();
    assert!(
        path_starts_with(&path, b"/remote/state"),
        "the plan was stored somewhere other than the remote's own store: {path:?}"
    );
    assert_eq!(store.load(&plan.id), Ok(path));
}

// ---------------------------------------------------------------------------------------------
// Keys

fn key(c: char) -> Press {
    Press { key: Key::Char(c), ctrl: false }
}

#[test]
fn keys_map_to_the_expected_actions() {
    assert_eq!(translate(&key('j'), false), Some(Action::Down));
    assert_eq!(translate(&key('s'), false), Some(Action::Sort(Sort::Size)));
    assert_eq!(translate(&key('M'), false), Some(Action::Sort(Sort::Mtime)));
    assert_eq!(translate(&key('m'), false), Some(Action::StageMove));
    assert_eq!(translate(&key('d'), false), Some(Action::StageDelete));
    assert_eq!(translate(&key(' '), false), Some(Action::Mark));
    assert_eq!(translate(&key('q'), false), Some(Action::Quit));
    assert_eq!(
        translate(&Press { key: Key::Char('c'), ctrl: true }, false),
        Some(Action::Quit)
    );
    assert_eq!(translate(&key('z'), false), None);
    assert!(is_quit(&key('q')) && !is_quit(&key('c')));
}

#[test]
fn a_prompt_turns_command_keys_back_into_text() {
    // Without this, typing a destination like "/mnt/dump" would fire d, u, m and p.
    for c in ['d', 'u', 'm', 'p', 'q', 'w'] {
        assert_eq!(translate(&key(c), true), Some(Action::Input(c)), "{c} leaked");
    }
    assert_eq!(translate(&Press { key: Key::Enter, ctrl: false }, true), Some(Action::Submit));
    assert_eq!(translate(&Press { key: Key::Esc, ctrl: false }, true), Some(Action::Dismiss));
    // Ctrl-C still gets you out of anything.
    assert_eq!(
        translate(&Press { key: Key::Char('c'), ctrl: true }, true),
        Some(Action::Quit)
    );
}

// ---------------------------------------------------------------------------------------------
// What is shown

/// A tree with a directory and a file, somewhere that takes some room to name.
fn shown_fixture() -> (Env, App) {
    let mut t = Tree::new(b"/tmp/.tmpAbCdEf".to_vec(), &dir());
    let logs = t.push_child(ROOT, b"logs", &dir(), 0, true);
    t.push_child(logs, b"a.log", &file(300_000), 0, true);
    t.push_child(ROOT, b"notes.txt", &file(50_000), 0, true);
    t.finish();
    app_for(t)
}

fn rows(app: &App) -> Vec<String> {
    let max = app.max_row_size().max(1);
    let total = app.size_of(app.dir).max(1);
    app.rows.iter().map(|&id| line_text(&row_line(app, id, max, total))).collect()
}

#[test]
fn browser_shows_sizes_bars_and_names() {
    let (_, app) = shown_fixture();
    let header = line_text(&app.header(90));
    assert!(header.contains("ccdu"), "{header}");
    assert!(header.contains("/tmp/.tmpAbCdEf  356.0 KiB in 3 items"), "{header}");
    assert_eq!(
        rows(&app),
        [
            "   300.0 KiB  [████████████]  84.3%  logs/",
            "    52.0 KiB  [██          ]  14.6%  notes.txt",
        ]
    );
    assert!(footer(&app, 90).contains("sort: size▼  size: disk"));
}

#[test]
fn percentages_are_those_of_double_precision() {
    let (_, app) = shown_fixture();
    let logs = app.rows[0];
    let size = app.size_of(logs);
    let percent = |total: u64| line_text(&row_line(&app, logs, size, total));
    // 0.15 has no exact double; the nearest one is below it.
    assert_eq!(size % 3, 0);
    assert!(percent(size / 3 * 2000).contains("]   0.1%  logs"), "{}", percent(size / 3 * 2000));
    assert!(percent(size).contains("] 100.0%  logs"));
    assert!(percent(3 * size).contains("]  33.3%  logs"));
    // A quarter of a percent is exact, and half way goes to the even digit.
    assert!(percent(400 * size).contains("]   0.2%  logs"));
    assert!(percent(u64::MAX).contains("]   0.0%  logs"));
    assert!(percent(1).contains(&format!("] {size}00.0%  logs")));
}

#[test]
fn graph_cycles_off() {
    let (mut env, mut app) = shown_fixture();
    for _ in 0..4 {
        env.press(&mut app, Action::CycleGraph);
    }
    // Back to Both after a full cycle.
    assert!(rows(&app)[0].contains('█'));
    env.press(&mut app, Action::CycleGraph);
    env.press(&mut app, Action::CycleGraph);
    env.press(&mut app, Action::CycleGraph);
    env.press(&mut app, Action::CycleGraph);
    env.press(&mut app, Action::CycleGraph);
    assert_eq!(app.graph, Graph::Off);
    assert!(!rows(&app)[0].contains('█'), "graph should be off");
}

#[test]
fn overlays_render_over_the_listing() {
    let (mut env, mut app) = shown_fixture();
    env.press(&mut app, Action::ToggleHelp);
    assert!(app.show_help);
    assert!(help().iter().any(|(key, what)| key == "s" && what.contains("sort by size")));

    env.press(&mut app, Action::Dismiss);
    env.press(&mut app, Action::ToggleInfo);
    assert!(app.show_info);
    assert_eq!(
        info(&app),
        [
            " path        /tmp/.tmpAbCdEf/logs",
            " type        directory",
            " disk usage  300.0 KiB",
            " apparent    297.0 KiB",
            " modified    2001-09-09 01:46",
            " items       1",
        ]
    );
}

/// A warning must never be the thing that falls off the end of the header. The path gives way
/// first, then the totals.
#[test]
fn header_markers_survive_a_narrow_terminal() {
    let (mut env, mut app) = shown_fixture();
    app.stale = true;
    env.press(&mut app, Action::StageDelete);

    for width in [100u16, 80, 60, 44] {
        let header = line_text(&app.header(width));
        assert!(
            header.contains("[stale]"),
            "at {width} columns the stale warning was lost:\n{header}"
        );
        assert!(
            header.contains("staged"),
            "at {width} columns the staged marker was lost:\n{header}"
        );
        assert_eq!(
            header.chars().count(),
            width as usize,
            "at {width} columns the header overflowed"
        );
    }

    // Squeezed hard, the path is what gets shortened.
    let narrow = line_text(&app.header(44));
    assert!(narrow.contains('…'), "{narrow}");

    // And the reason sits in the footer, where a keystroke cannot clear it. (A status message
    // still takes the line while it is showing; it is gone by the next keypress.)
    app.status = None;
    let footer = footer(&app, 100);
    assert!(footer.contains("before the commit"), "{footer}");
}

#[test]
fn the_treemap_panel_draws_beside_the_listing() {
    let (mut env, mut app) = shown_fixture();
    assert!(!app.show_treemap);

    env.press(&mut app, Action::ToggleTreemap);
    assert!(app.show_treemap);

    // The listing is still there beside it.
    let listed = rows(&app);
    assert!(listed.iter().any(|row| row.contains("logs/")), "{listed:?}");
    assert!(listed.iter().any(|row| row.contains("notes.txt")), "{listed:?}");
    // And a label made it into a tile.
    let items: Vec<(NodeId, u64)> = app.rows.iter().map(|&id| (id, app.size_of(id))).collect();
    let tiles = squarify(&items, 50, 2, 39, 8);
    assert_eq!(tiles.len(), 2);
    let labels: Vec<String> = tiles
        .iter()
        .filter_map(|t| tile_label(&name_of(&app, t.id), t.width, t.height))
        .collect();
    assert!(labels.contains(&"logs".to_string()), "no tile label: {labels:?}");
    assert_eq!(tile_label("notes.txt", 6, 3), Some("…txt".to_string()));
    assert_eq!(tile_label("notes.txt", 2, 3), None);
    assert_eq!(tile_label("notes.txt", 6, 2), None);
}

#[test]
fn the_treemap_survives_a_panel_too_small_to_draw_in() {
    let (_, app) = shown_fixture();
    let items: Vec<(NodeId, u64)> = app.rows.iter().map(|&id| (id, app.size_of(id))).collect();
    // What a split of 24 by 4 and of 18 by 3 cells leaves for the map.
    for (width, height) in [(11, 2), (9, 0), (8, 1), (6, 0), (1, 1)] {
        for tile in squarify(&items, 0, 0, width, height) {
            tile_label(&name_of(&app, tile.id), tile.width, tile.height);
            assert!(tile.x + tile.width <= width && tile.y + tile.height <= height);
        }
    }
    assert!(squarify(&items, 0, 0, 0, 2).is_empty());
    assert!(!squarify(&items, 0, 0, 1, 1).is_empty());
}

#[test]
fn duplicates_are_listed_group_by_group() {
    let (mut env, mut app) = dup_fixture();
    env.find_dupes(&mut app);
    let lines: Vec<String> = (0..4).map(|row| dup_line(&app, row, 80)).collect();
    assert_eq!(
        lines,
        [
            " 3 copies of 29.3 KiB  — 64.0 KiB reclaimable",
            "   keep copy-a",
            "        sub/copy-b",
            "        sub/copy-c  (hardlinked elsewhere)",
        ]
    );
    assert_eq!(dup_line(&app, 2, 14), "        …opy-b");
    assert_eq!(
        dupes_title(1, 65_536),
        " duplicates   1 groups  64.0 KiB reclaimable"
    );
    assert_eq!(
        hunt_text(&DupProgress { candidates: 3, hashed: 1, bytes_read: 2048 }),
        " looking for duplicates   1 of 3 files, 2.0 KiB read"
    );
}

#[test]
fn duplicate_rows_stay_distinguishable_in_a_narrow_terminal() {
    let mut t = Tree::new(b"/tmp/.tmpAbCdEf".to_vec(), &dir());
    let deeply = t.push_child(ROOT, b"deeply", &dir(), 0, true);
    let nested = t.push_child(deeply, b"nested", &dir(), 0, true);
    let first = t.push_child(nested, b"first", &dir(), 0, true);
    let second = t.push_child(nested, b"second", &dir(), 0, true);
    let a = t.push_child(first, b"payload.bin", &file(30_000), 0, true);
    let b = t.push_child(second, b"payload.bin", &file(30_000), 0, true);
    t.finish();
    let (mut env, mut app) = app_for(t);
    env.dupes = vec![DupGroup { nodes: vec![a, b], size: 30_000, wasted: 32_768 }];
    env.find_dupes(&mut app);

    // Copies of one file share everything but the tail. A row that shows only the shared part
    // tells you nothing about which copy it is.
    let out: Vec<String> = (0..3).map(|row| dup_line(&app, row, 80)).collect();
    let out = out.join("\n");
    assert!(out.contains("first/payload.bin"), "cannot tell the copies apart:\n{out}");
    assert!(out.contains("second/payload.bin"), "cannot tell the copies apart:\n{out}");
    assert!(out.contains("reclaimable"), "{out}");
    assert!(!out.contains("/tmp/.tmpAbCdEf"), "the shared root wastes the line");
}

#[test]
fn a_tiny_terminal_still_renders() {
    let (_, app) = shown_fixture();
    for width in [20u16, 8, 0] {
        app.header(width);
        footer(&app, width);
    }
    let area = Area { x: 3, y: 2, width: 8, height: 1 };
    assert_eq!(centered(area, 72, 9), area);
    assert_eq!(
        centered(Area { x: 0, y: 0, width: 100, height: 20 }, 60, 10),
        Area { x: 20, y: 5, width: 60, height: 10 }
    );
}

#[test]
fn the_footer_drops_the_hint_rather_than_let_the_halves_collide() {
    let (_, app) = shown_fixture();
    let wide = footer(&app, 100);
    assert_eq!(wide.chars().count(), 100);
    assert!(wide.ends_with("q quit "));
    assert_eq!(footer(&app, 50), " sort: size▼  size: disk");
}

#[test]
fn marks_made_elsewhere_are_acted_on_too() {
    let (mut env, mut app) = fixture();
    env.press(&mut app, Action::Bottom);
    env.press(&mut app, Action::Mark); // marks "tiny"
    env.press(&mut app, Action::Top);
    env.press(&mut app, Action::Enter); // goes into "big"
    env.press(&mut app, Action::Mark);
    env.press(&mut app, Action::StageDelete);

    assert_eq!(app.staged.len(), 2);
    assert!(app.marks.is_empty());
    assert!(app.staged.keys().any(|&id| name_of(&app, id) == "tiny"));
    assert!(app.status.as_deref().unwrap().starts_with("staged 2 for deletion"));

    // Undoing takes the same marks.
    env.press(&mut app, Action::Leave);
    env.press(&mut app, Action::Bottom);
    env.press(&mut app, Action::Mark);
    env.press(&mut app, Action::Top);
    env.press(&mut app, Action::Enter);
    env.press(&mut app, Action::Unstage);
    assert_eq!(app.staged.len(), 1);
}

#[test]
fn only_deletions_count_towards_what_is_staged_for_deletion() {
    let (mut env, mut app) = fixture();
    env.press(&mut app, Action::StageMove);
    for c in "/mnt/archive".chars() {
        env.press(&mut app, Action::Input(c));
    }
    env.press(&mut app, Action::Submit);
    assert_eq!(app.staged.len(), 1);
    assert_eq!(app.staged_bytes(), 0);
    env.press(&mut app, Action::Down);
    env.press(&mut app, Action::StageDelete);
    let small = app.selected().unwrap();
    assert_eq!(app.staged_bytes(), app.tree.node(small).disk);
}

#[test]
fn staged_and_marked_rows_say_so() {
    let (mut env, mut app) = shown_fixture();
    env.press(&mut app, Action::StageDelete);
    env.press(&mut app, Action::Mark);
    assert!(rows(&app)[0].starts_with("*D"), "{:?}", rows(&app));
    env.press(&mut app, Action::Unstage);
    assert!(rows(&app)[0].starts_with("  "), "{:?}", rows(&app));
}

#[test]
fn odd_entries_are_painted_and_annotated() {
    assert_eq!(annotation(0), None);
    assert_eq!(annotation(flags::ERR | flags::EXCLUDED), Some("unreadable"));
    assert_eq!(annotation(flags::EXCLUDED), Some("excluded"));
    assert_eq!(annotation(flags::OTHER_FS), Some("other filesystem"));
    assert_eq!(annotation(flags::HARDLINK_DUP), Some("hardlink, counted elsewhere"));
    assert_eq!(annotation(flags::LOOP), Some("already visited"));
    assert_eq!(name_style(flags::DIR | flags::ERR), Tone::Red);
    assert_eq!(name_style(flags::HARDLINK_DUP), Tone::Grey);
    assert_eq!(name_style(flags::SYMLINK), Tone::Magenta);
    assert_eq!(name_style(flags::DIR), Tone::BoldCyan);
    assert_eq!(name_style(flags::OTHER), Tone::Yellow);
    assert_eq!(name_style(0), Tone::Plain);
}

#[test]
fn a_partial_scan_is_marked_in_the_header() {
    let mut t = Tree::new(b"/t".to_vec(), &dir());
    t.push_child(ROOT, b"a", &file(1), flags::ERR, true);
    t.add_errors(3);
    t.mark_cancelled();
    t.finish();
    let (_, app) = app_for(t);
    let header = line_text(&app.header(80));
    assert!(header.contains("[partial]") && header.contains("[3 unreadable]"), "{header}");
}

#[test]
fn the_plan_is_shown_operation_by_operation() {
    assert_eq!(
        plan_title(2, 8 << 20, 3 << 20),
        " plan  2 operations  reclaims 8.0 MiB  moves 3.0 MiB"
    );
    let ident = Ident { dev: 1, ino: 2, size: 3, mtime: 4, kind: EntryKind::Dir };
    let delete = Op::Delete { path: b"/data/logs".to_vec(), ident, est_bytes: 8 << 20 };
    assert_eq!(op_lines(&delete), [" D    8.0 MiB  /data/logs"]);
    let relocate = Op::Move {
        src: b"/data/cache".to_vec(),
        dst: b"/mnt/big/cache".to_vec(),
        ident,
        est_bytes: 3 << 20,
        on_conflict: ccdu::plan::Conflict::Fail,
    };
    assert_eq!(
        op_lines(&relocate),
        [" M    3.0 MiB  /data/cache", "              → /mnt/big/cache"]
    );
}

#[test]
fn a_scan_under_way_is_summed_up() {
    let p = ccdu::scan::Progress { dirs: 12, entries: 3456, disk: 2048, current: Vec::new() };
    assert_eq!(scan_text(&p), "3 456 entries in 12 directories, 2.0 KiB");
    assert_eq!([spinner(0), spinner(1), spinner(2), spinner(3), spinner(4)], ['|', '/', '-', '\\', '|']);
    assert_eq!(tail("abcdef", 4), "…def");
    assert_eq!(tail("abc", 4), "abc");
    assert_eq!(tail("abc", 0), "");
}
