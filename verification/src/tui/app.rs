//! Browser state and input handling.
//!
//! Kept free of rendering so it can be driven without a terminal. Staging lives here too: marking
//! and staging never touch the filesystem beyond asking what the entries look like, so everything
//! up to the moment a plan is committed is reversible.
//!
//! Whatever has to be done outside is asked for: a key press gives back an [`Ask`], and the answer
//! is handed in before the next key.

pub mod browse;
pub mod dupes;
pub mod ids;
pub mod input;
pub mod review;
pub mod rows;
pub mod stage;
pub mod told;

use std::collections::{HashMap, HashSet};
use std::sync::Arc;

use vstd::prelude::*;

use crate::config::{is_path_set, all_protected, Config};
use crate::dup::{arranged, group_views, DupGroup, DupProgress, GroupNote};
use crate::model::{NodeId, Tree, ROOT};
use crate::order::{
    bytes_at_most, comes_first, ints, is_bytes_at_most, is_order, lemma_bytes_total,
    lemma_bytes_transitive, lemma_order_unique, stable_order, Ranked,
};
use crate::plan::store::{opt_view, Store};
use crate::plan::validate::{notes, path_views, Finding, Note, Severity};
use crate::plan::{Conflict, Ident, Op, Plan, PLAN_VERSION};
use crate::text::copy_bytes;

verus! {

broadcast use vstd::std_specs::hash::group_hash_axioms;

/// Which column the listing is ordered by.
#[derive(Clone, Copy, Debug, PartialEq, Eq, Structural)]
pub enum Sort {
    Size,
    Name,
    Items,
    Mtime,
}

impl Sort {
    pub open spec fn spec_label(self) -> Seq<char> {
        match self {
            Sort::Size => "size"@,
            Sort::Name => "name"@,
            Sort::Items => "items"@,
            Sort::Mtime => "mtime"@,
        }
    }

    pub fn label(self) -> (r: &'static str)
        ensures
            r@ == self.spec_label(),
    {
        match self {
            Sort::Size => "size",
            Sort::Name => "name",
            Sort::Items => "items",
            Sort::Mtime => "mtime",
        }
    }
}

/// How much of the row is given over to the bar graph.
#[derive(Clone, Copy, Debug, PartialEq, Eq, Structural)]
pub enum Graph {
    Off,
    Bar,
    Percent,
    Both,
}

impl Graph {
    pub open spec fn spec_next(self) -> Graph {
        match self {
            Graph::Off => Graph::Bar,
            Graph::Bar => Graph::Percent,
            Graph::Percent => Graph::Both,
            Graph::Both => Graph::Off,
        }
    }

    pub fn next(self) -> (r: Graph)
        ensures
            r == self.spec_next(),
    {
        match self {
            Graph::Off => Graph::Bar,
            Graph::Bar => Graph::Percent,
            Graph::Percent => Graph::Both,
            Graph::Both => Graph::Off,
        }
    }
}

/// Which screen is shown.
#[derive(Clone, Copy, Debug, PartialEq, Eq, Structural)]
pub enum Screen {
    Browse,
    /// Files with identical contents, worst waste first.
    Dupes,
    Plan,
    /// The last chance to back out. Deliberately its own screen rather than a keystroke away from
    /// the plan, because this is the only irreversible thing there is.
    Confirm,
    Running,
}

/// A commit in progress, or the record of one that finished.
#[derive(Debug)]
pub struct Running {
    /// What has happened so far, newest last.
    pub log: Vec<String>,
    pub total: usize,
    pub completed: usize,
    /// Set once the run ends, whether it finished, paused or failed.
    pub summary: Option<String>,
    pub plan_id: String,
    /// Running on another machine, where the pause switch does not reach.
    pub remote: bool,
    /// A pause has been asked for.
    pub paused: bool,
}

impl Running {
    pub fn is_finished(&self) -> (r: bool)
        ensures
            r == (self.summary is Some),
    {
        self.summary.is_some()
    }

    pub fn is_pausing(&self) -> (r: bool)
        ensures
            r == (self.paused && self.summary is None),
    {
        self.paused && self.summary.is_none()
    }
}

/// A commit in terms of its text.
#[verifier::ext_equal]
pub struct RunNote {
    pub log: Seq<Seq<char>>,
    pub total: usize,
    pub completed: usize,
    pub summary: Option<Seq<char>>,
    pub plan_id: Seq<char>,
    pub remote: bool,
    pub paused: bool,
}

pub open spec fn opt_text(s: Option<String>) -> Option<Seq<char>> {
    match s {
        Some(t) => Some(t@),
        None => None,
    }
}

impl View for Running {
    type V = RunNote;

    open spec fn view(&self) -> RunNote {
        RunNote {
            log: self.log@.map_values(|s: String| s@),
            total: self.total,
            completed: self.completed,
            summary: opt_text(self.summary),
            plan_id: self.plan_id@,
            remote: self.remote,
            paused: self.paused,
        }
    }
}

/// A line of the list of duplicates.
#[derive(Clone, Copy, Debug, PartialEq, Eq, Structural)]
pub enum DupRow {
    Header(usize),
    File(usize, NodeId),
}

/// A search for duplicates, running or finished.
#[derive(Debug)]
pub struct Dupes {
    pub groups: Vec<DupGroup>,
    /// Flattened for display: a header per group, then its files.
    pub rows: Vec<DupRow>,
    pub cursor: usize,
    pub latest: DupProgress,
    pub scanning: bool,
}

#[verifier::ext_equal]
pub struct DupesNote {
    pub groups: Seq<GroupNote>,
    pub rows: Seq<DupRow>,
    pub cursor: usize,
    pub latest: DupProgress,
    pub scanning: bool,
}

impl View for Dupes {
    type V = DupesNote;

    open spec fn view(&self) -> DupesNote {
        DupesNote {
            groups: group_views(self.groups@),
            rows: self.rows@,
            cursor: self.cursor,
            latest: self.latest,
            scanning: self.scanning,
        }
    }
}

impl DupesNote {
    /// The file under the cursor, if the cursor is on one.
    pub open spec fn chosen(&self) -> Option<(usize, NodeId)> {
        if self.cursor < self.rows.len() {
            match self.rows[self.cursor as int] {
                DupRow::File(group, id) => Some((group, id)),
                DupRow::Header(_) => None,
            }
        } else {
            None
        }
    }
}

impl Dupes {
    pub fn is_scanning(&self) -> (r: bool)
        ensures
            r == self.scanning,
    {
        self.scanning
    }

    /// The file under the cursor, if the cursor is on one.
    pub fn selected(&self) -> (r: Option<(usize, NodeId)>)
        ensures
            r == self@.chosen(),
    {
        if self.cursor < self.rows.len() {
            match self.rows[self.cursor] {
                DupRow::File(group, id) => Some((group, id)),
                DupRow::Header(_) => None,
            }
        } else {
            None
        }
    }
}

#[derive(Clone, Debug, PartialEq, Eq)]
pub enum StagedKind {
    Delete,
    Move(Vec<u8>),
}

/// A change staged against one entry. Holds the identity read at staging time, which is what the
/// executor will check again before it acts.
#[derive(Clone, Debug, PartialEq, Eq)]
pub struct Staged {
    pub kind: StagedKind,
    pub ident: Ident,
    pub est_bytes: u64,
}

/// A staged change in terms of where the entry goes, if anywhere.
#[verifier::ext_equal]
pub struct StagedNote {
    pub to: Option<Seq<u8>>,
    pub ident: Ident,
    pub est_bytes: u64,
}

impl View for Staged {
    type V = StagedNote;

    open spec fn view(&self) -> StagedNote {
        StagedNote {
            to: match self.kind {
                StagedKind::Delete => None,
                StagedKind::Move(dst) => Some(dst@),
            },
            ident: self.ident,
            est_bytes: self.est_bytes,
        }
    }
}

/// A single-line text prompt, used to ask for a move destination.
#[derive(Clone, Debug, PartialEq, Eq)]
pub struct Prompt {
    pub label: String,
    pub input: String,
    /// Entries the answer will apply to.
    pub targets: Vec<NodeId>,
}

#[verifier::ext_equal]
pub struct PromptNote {
    pub label: Seq<char>,
    pub input: Seq<char>,
    pub targets: Seq<NodeId>,
}

impl View for Prompt {
    type V = PromptNote;

    open spec fn view(&self) -> PromptNote {
        PromptNote { label: self.label@, input: self.input@, targets: self.targets@ }
    }
}

/// A key press translated into an intent.
#[derive(Clone, Copy, Debug, PartialEq, Eq, Structural)]
pub enum Action {
    Up,
    Down,
    PageUp,
    PageDown,
    Top,
    Bottom,
    Enter,
    Leave,
    Sort(Sort),
    ToggleApparent,
    CycleGraph,
    ToggleInfo,
    ToggleHelp,
    Mark,
    StageDelete,
    StageMove,
    Unstage,
    TogglePlan,
    SavePlan,
    Commit,
    Confirm,
    ToggleTreemap,
    ToggleDupes,
    /// Stage every copy in the selected group except the one being kept.
    StageGroupRest,
    Input(char),
    Backspace,
    Submit,
    Dismiss,
    Quit,
}

/// What a key press asks to be done outside.
#[derive(Debug)]
pub enum Ask {
    Nothing,
    /// Start looking for identical files.
    FindDupes,
    /// Stop looking for identical files.
    StopDupes,
    /// Find out what these paths look like now, on whichever machine holds them.
    Identify(Vec<Vec<u8>>),
    /// Look at what the plan is about, unless that is on another machine.
    Look,
    /// Store this plan where its paths mean something.
    Save(Plan),
    /// Store this plan where its paths mean something, then run it there.
    Commit(Plan),
    /// Pause the commit.
    Pause,
}

/// What an answer is being waited for.
#[derive(Clone, Copy, Debug, PartialEq, Eq, Structural)]
pub enum AfterLook {
    /// Show the plan.
    Open,
    /// Write the plan out.
    Save,
    /// Ask for confirmation.
    Commit,
    /// Go on showing the plan, which has one operation less.
    Unstaged,
}

/// What is to be staged once it is known what the entries look like.
#[derive(Debug)]
pub enum Staging {
    Delete,
    /// Each entry keeps its own name under this directory, the way `mv` into a directory behaves.
    MoveInto(Vec<u8>),
}

#[derive(Debug)]
pub enum Pending {
    Nothing,
    Stage { targets: Vec<NodeId>, staging: Staging },
    Look(AfterLook),
    Save { ops: usize, dropped: usize },
    Commit { total: usize, plan_id: String },
}

#[verifier::ext_equal]
pub enum PendingNote {
    Nothing,
    Stage { targets: Seq<NodeId>, into: Option<Seq<u8>> },
    Look(AfterLook),
    Save { ops: usize, dropped: usize },
    Commit { total: usize, plan_id: Seq<char> },
}

impl View for Pending {
    type V = PendingNote;

    open spec fn view(&self) -> PendingNote {
        match self {
            Pending::Nothing => PendingNote::Nothing,
            Pending::Stage { targets, staging } => PendingNote::Stage {
                targets: targets@,
                into: match staging {
                    Staging::Delete => None,
                    Staging::MoveInto(dir) => Some(dir@),
                },
            },
            Pending::Look(after) => PendingNote::Look(*after),
            Pending::Save { ops, dropped } => PendingNote::Save { ops: *ops, dropped: *dropped },
            Pending::Commit { total, plan_id } => PendingNote::Commit {
                total: *total,
                plan_id: plan_id@,
            },
        }
    }
}

/// An operation in terms of its paths.
#[verifier::ext_equal]
pub struct OpNote {
    pub from: Seq<u8>,
    pub to: Option<Seq<u8>>,
    pub ident: Ident,
    pub est_bytes: u64,
    pub on_conflict: Option<Conflict>,
}

pub open spec fn op_note(op: Op) -> OpNote {
    match op {
        Op::Delete { path, ident, est_bytes } => OpNote {
            from: path@,
            to: None,
            ident,
            est_bytes,
            on_conflict: None,
        },
        Op::Move { src, dst, ident, est_bytes, on_conflict } => OpNote {
            from: src@,
            to: Some(dst@),
            ident,
            est_bytes,
            on_conflict: Some(on_conflict),
        },
    }
}

pub open spec fn op_notes(ops: Seq<Op>) -> Seq<OpNote> {
    ops.map_values(|op: Op| op_note(op))
}

/// A plan in terms of its text.
#[verifier::ext_equal]
pub struct PlanNote {
    pub version: u32,
    pub id: Seq<char>,
    pub created: i64,
    pub host: Seq<char>,
    pub root: Seq<u8>,
    pub ops: Seq<OpNote>,
}

pub open spec fn plan_note(plan: Plan) -> PlanNote {
    PlanNote {
        version: plan.version,
        id: plan.id@,
        created: plan.created,
        host: plan.host@,
        root: plan.root@,
        ops: op_notes(plan.ops@),
    }
}

/// The browser.
pub struct App {
    /// Shared so a search for duplicates can read it from another thread while the browser keeps
    /// drawing. Nothing changes the tree after the scan that produced it.
    pub tree: Arc<Tree>,
    pub dir: NodeId,
    pub cursor: usize,
    pub rows: Vec<NodeId>,
    pub sort: Sort,
    pub reverse: bool,
    pub apparent: bool,
    pub graph: Graph,
    pub show_help: bool,
    pub show_info: bool,
    pub quit: bool,
    pub view: Screen,
    /// Multi-select. Empty means "act on the cursor".
    pub marks: HashSet<NodeId>,
    pub staged: HashMap<NodeId, Staged>,
    pub prompt: Option<Prompt>,
    /// One-line feedback, shown until the next action replaces it.
    pub status: Option<String>,
    /// Built when the plan is reviewed, alongside the nodes each operation came from.
    pub plan: Plan,
    pub plan_nodes: Vec<NodeId>,
    pub findings: Vec<Finding>,
    pub plan_cursor: usize,
    /// Where plans are written.
    pub store: Store,
    pub run: Option<Running>,
    /// Set once a commit has removed things: the tree in memory no longer describes the disk.
    pub stale: bool,
    /// Show the treemap beside the listing.
    pub show_treemap: bool,
    pub dupes: Option<Dupes>,
    /// Why this tree cannot be changed from here, if it cannot. Set for trees that were loaded or
    /// fetched rather than scanned: their paths describe another machine or another moment.
    pub read_only: Option<String>,
    /// The machine holding these files, when it is not this one. Staging asks it what entries look
    /// like, and committing runs there: the plan and its journal live where the files do, so an
    /// interrupted commit is resumable on the machine that was doing the work.
    pub remote: Option<String>,
    /// Paths the user has put out of reach, built-in list plus their own.
    pub protected: Vec<Vec<u8>>,
    /// How much of a destination filesystem is left free after a move, in percent.
    pub headroom_percent: u64,
    pub remembered: HashMap<NodeId, usize>,
    pub pending: Pending,
}

/// The browser in terms of what it holds.
#[verifier::ext_equal]
pub struct Face {
    pub tree: Tree,
    pub dir: NodeId,
    pub cursor: usize,
    pub rows: Seq<NodeId>,
    pub sort: Sort,
    pub reverse: bool,
    pub apparent: bool,
    pub graph: Graph,
    pub show_help: bool,
    pub show_info: bool,
    pub quit: bool,
    pub view: Screen,
    pub marks: Set<NodeId>,
    pub staged: Map<NodeId, StagedNote>,
    pub prompt: Option<PromptNote>,
    pub status: Option<Seq<char>>,
    pub plan: PlanNote,
    pub plan_nodes: Seq<NodeId>,
    pub findings: Seq<Note>,
    pub plan_cursor: usize,
    pub store: Store,
    pub run: Option<RunNote>,
    pub stale: bool,
    pub show_treemap: bool,
    pub dupes: Option<DupesNote>,
    pub read_only: Option<Seq<char>>,
    pub remote: Option<Seq<char>>,
    pub protected: Seq<Seq<u8>>,
    pub headroom_percent: u64,
    pub remembered: Map<NodeId, usize>,
    pub pending: PendingNote,
}

pub open spec fn staged_notes(m: Map<NodeId, Staged>) -> Map<NodeId, StagedNote> {
    m.map_values(|s: Staged| s@)
}

impl View for App {
    type V = Face;

    open spec fn view(&self) -> Face {
        Face {
            tree: *self.tree,
            dir: self.dir,
            cursor: self.cursor,
            rows: self.rows@,
            sort: self.sort,
            reverse: self.reverse,
            apparent: self.apparent,
            graph: self.graph,
            show_help: self.show_help,
            show_info: self.show_info,
            quit: self.quit,
            view: self.view,
            marks: self.marks@,
            staged: staged_notes(self.staged@),
            prompt: match self.prompt {
                Some(p) => Some(p@),
                None => None,
            },
            status: opt_text(self.status),
            plan: plan_note(self.plan),
            plan_nodes: self.plan_nodes@,
            findings: notes(self.findings@),
            plan_cursor: self.plan_cursor,
            store: self.store,
            run: match self.run {
                Some(r) => Some(r@),
                None => None,
            },
            stale: self.stale,
            show_treemap: self.show_treemap,
            dupes: match self.dupes {
                Some(d) => Some(d@),
                None => None,
            },
            read_only: opt_text(self.read_only),
            remote: opt_text(self.remote),
            protected: path_views(self.protected@),
            headroom_percent: self.headroom_percent,
            remembered: self.remembered@,
            pending: self.pending@,
        }
    }
}

/// Whether every id is of a node in the tree.
pub open spec fn all_held(t: Tree, ids: Seq<NodeId>) -> bool {
    forall|i: int| 0 <= i < ids.len() ==> t.holds(#[trigger] ids[i])
}

/// Whether a line is about one of so many groups, and a file in the tree if it is about one.
pub open spec fn is_dup_row(t: Tree, groups: nat, row: DupRow) -> bool {
    match row {
        DupRow::Header(g) => g < groups,
        DupRow::File(g, id) => g < groups && t.holds(id),
    }
}

impl DupesNote {
    pub open spec fn wf(&self, t: Tree) -> bool {
        &&& self.cursor < self.rows.len() || self.cursor == 0
        &&& forall|g: int|
            0 <= g < self.groups.len() ==> all_held(t, (#[trigger] self.groups[g]).nodes)
        &&& forall|i: int|
            0 <= i < self.rows.len() ==> is_dup_row(t, self.groups.len(), #[trigger] self.rows[i])
    }
}

/// Whether a tree is one. This is as much as most of the browser needs to know of it.
#[verifier::opaque]
pub open spec fn is_sound(t: Tree) -> bool {
    t.wf()
}

impl Face {
    pub open spec fn wf(&self) -> bool {
        &&& is_sound(self.tree)
        &&& self.tree.holds(self.dir)
        &&& self.cursor < self.rows.len() || self.cursor == 0
        &&& all_held(self.tree, self.rows)
        &&& forall|id: NodeId| #[trigger] self.marks.contains(id) ==> self.tree.holds(id)
        &&& self.marks.finite()
        &&& forall|id: NodeId| #[trigger]
            self.staged.contains_key(id) ==> self.tree.holds(id)
        &&& self.staged.dom().finite()
        &&& (self.prompt matches Some(p) ==> all_held(self.tree, p.targets))
        &&& all_held(self.tree, self.plan_nodes)
        &&& self.plan_nodes.len() == self.plan.ops.len()
        &&& (self.dupes matches Some(d) ==> d.wf(self.tree))
        &&& (self.pending matches PendingNote::Stage { targets, .. } ==> all_held(
            self.tree,
            targets,
        ))
    }

    /// What is under the cursor.
    pub open spec fn chosen(&self) -> Option<NodeId> {
        if self.cursor < self.rows.len() {
            Some(self.rows[self.cursor as int])
        } else {
            None
        }
    }
}

pub open spec fn node_size(t: Tree, apparent: bool, id: NodeId) -> u64 {
    if apparent {
        t.nodes()[id as int].apparent
    } else {
        t.nodes()[id as int].disk
    }
}

// ---------------------------------------------------------------------------------------------
// The listing

/// What a row is put in order by: a number, largest first, or a name, A to Z.
#[derive(Debug)]
pub struct RowKey {
    pub number: i128,
    pub name: Vec<u8>,
}

impl Ranked for RowKey {
    open spec fn at_most(&self, other: &Self) -> bool {
        self.number > other.number || (self.number == other.number && bytes_at_most(
            self.name@,
            other.name@,
        ))
    }

    proof fn total(a: &Self, b: &Self) {
        lemma_bytes_total(a.name@, b.name@);
    }

    proof fn transitive(a: &Self, b: &Self, c: &Self) {
        if a.number == b.number && b.number == c.number {
            lemma_bytes_transitive(a.name@, b.name@, c.name@);
        }
    }

    fn is_at_most(&self, other: &Self) -> (r: bool) {
        self.number > other.number || (self.number == other.number && is_bytes_at_most(
            self.name.as_slice(),
            other.name.as_slice(),
        ))
    }
}

/// The number a row is put in order by. Size, item count and mtime read best largest or newest
/// first.
pub open spec fn row_number(t: Tree, sort: Sort, apparent: bool, id: NodeId) -> int {
    match sort {
        Sort::Size => node_size(t, apparent, id) as int,
        Sort::Name => 0,
        Sort::Items => t.nodes()[id as int].items as int,
        Sort::Mtime => t.nodes()[id as int].mtime as int,
    }
}

pub open spec fn row_name(t: Tree, sort: Sort, id: NodeId) -> Seq<u8> {
    if sort == Sort::Name {
        t.spec_name(id)
    } else {
        Seq::empty()
    }
}

/// Whether these are the keys of some rows.
pub open spec fn are_row_keys(
    t: Tree,
    sort: Sort,
    apparent: bool,
    ids: Seq<NodeId>,
    keys: Seq<RowKey>,
) -> bool {
    &&& keys.len() == ids.len()
    &&& forall|i: int|
        0 <= i < ids.len() ==> (#[trigger] keys[i]).number == row_number(t, sort, apparent, ids[i])
            && keys[i].name@ == row_name(t, sort, ids[i])
}

/// Whether this is the order some rows are shown in. Rows that are alike stay as they stand in the
/// tree.
pub open spec fn is_row_order(
    t: Tree,
    sort: Sort,
    apparent: bool,
    ids: Seq<NodeId>,
    p: Seq<int>,
) -> bool {
    exists|keys: Seq<RowKey>| #[trigger]
        are_row_keys(t, sort, apparent, ids, keys) && is_order(keys, p)
}

pub open spec fn row_order(t: Tree, sort: Sort, apparent: bool, ids: Seq<NodeId>) -> Seq<int> {
    choose|p: Seq<int>| is_row_order(t, sort, apparent, ids, p)
}

/// The listing of a directory.
pub open spec fn listing(t: Tree, dir: NodeId, sort: Sort, reverse: bool, apparent: bool) -> Seq<
    NodeId,
> {
    let kids = t.kids()[dir as int];
    let rows = arranged(kids, row_order(t, sort, apparent, kids));
    if reverse {
        rows.reverse()
    } else {
        rows
    }
}

proof fn lemma_row_order(
    t: Tree,
    sort: Sort,
    apparent: bool,
    ids: Seq<NodeId>,
    keys: Seq<RowKey>,
    p: Seq<int>,
)
    requires
        are_row_keys(t, sort, apparent, ids, keys),
        is_order(keys, p),
    ensures
        p == row_order(t, sort, apparent, ids),
{
    assert(is_row_order(t, sort, apparent, ids, p));
    let q = row_order(t, sort, apparent, ids);
    let other = choose|k: Seq<RowKey>| #[trigger]
        are_row_keys(t, sort, apparent, ids, k) && is_order(k, q);
    assert forall|i: int, j: int| 0 <= i < j < q.len() implies comes_first(
        keys,
        #[trigger] q[i],
        #[trigger] q[j],
    ) by {
        assert(comes_first(other, q[i], q[j]));
        assert(keys[q[i]].number == other[q[i]].number);
        assert(keys[q[j]].number == other[q[j]].number);
    }
    assert(is_order(keys, q));
    lemma_order_unique(keys, p, q);
}

/// The cursor once the listing has `n` rows.
pub open spec fn clamped(cursor: usize, n: nat) -> usize {
    if n == 0 {
        0
    } else if cursor >= n {
        (n - 1) as usize
    } else {
        cursor
    }
}

impl Face {
    /// With the rows listed anew, and the cursor kept within them.
    pub open spec fn relisted(self) -> Face {
        let rows = listing(self.tree, self.dir, self.sort, self.reverse, self.apparent);
        Face { rows, cursor: clamped(self.cursor, rows.len()), ..self }
    }
}

impl App {
    pub open spec fn wf(&self) -> bool {
        self@.wf()
    }

    pub fn size_of(&self, id: NodeId) -> (r: u64)
        requires
            self.tree.holds(id),
        ensures
            r == node_size(*self.tree, self.apparent, id),
    {
        let n = self.tree.node(id);
        if self.apparent {
            n.apparent
        } else {
            n.disk
        }
    }

    /// The path of a node.
    pub(crate) fn path_to(&self, id: NodeId) -> (r: Vec<u8>)
        requires
            self.wf(),
            self.tree.holds(id),
        ensures
            r@ == self.tree.spec_path(id),
    {
        proof {
            reveal(is_sound);
        }
        self.tree.path_of(id)
    }

    /// The name of a node.
    pub(crate) fn name_of(&self, id: NodeId) -> (r: &[u8])
        requires
            self.wf(),
            self.tree.holds(id),
        ensures
            r@ == self.tree.spec_name(id),
    {
        proof {
            reveal(is_sound);
        }
        self.tree.name(id)
    }

    pub fn selected(&self) -> (r: Option<NodeId>)
        ensures
            r == self@.chosen(),
    {
        if self.cursor < self.rows.len() {
            Some(self.rows[self.cursor])
        } else {
            None
        }
    }
}

/// The size of the largest of the first `n` rows.
pub open spec fn largest_size(t: Tree, apparent: bool, rows: Seq<NodeId>, n: int) -> u64
    decreases n,
{
    if n <= 0 {
        0
    } else {
        let before = largest_size(t, apparent, rows, n - 1);
        let size = node_size(t, apparent, rows[n - 1]);
        if size > before {
            size
        } else {
            before
        }
    }
}

/// How many findings block a commit.
pub open spec fn errors_among(findings: Seq<Note>, n: int) -> nat
    decreases n,
{
    if n <= 0 {
        0
    } else if findings[n - 1].severity == Severity::Error {
        errors_among(findings, n - 1) + 1
    } else {
        errors_among(findings, n - 1)
    }
}

/// The children of a directory in the order they are listed in.
pub fn list_rows(tree: &Tree, dir: NodeId, sort: Sort, reverse: bool, apparent: bool) -> (r: Vec<
    NodeId,
>)
    requires
        tree.wf(),
        tree.holds(dir),
    ensures
        r@ == listing(*tree, dir, sort, reverse, apparent),
        all_held(*tree, r@),
        forall|i: int|
            0 <= i < r@.len() ==> tree.nodes()[#[trigger] r@[i] as int].parent == dir,
        self::rows::is_listing_of(*tree, dir, sort, reverse, apparent, r@),
{
    let kids = tree.child_ids(dir);
    let ghost t = *tree;
    let ghost ids = kids@;
    let mut keys: Vec<RowKey> = Vec::new();
    let mut i: usize = 0;
    while i < kids.len()
        invariant
            i <= kids@.len(),
            tree.wf(),
            tree.holds(dir),
            t == *tree,
            ids == kids@,
            ids == t.kids()[dir as int],
            keys@.len() == i,
            forall|k: int|
                0 <= k < i ==> (#[trigger] keys@[k]).number == row_number(
                    t,
                    sort,
                    apparent,
                    ids[k],
                ) && keys@[k].name@ == row_name(t, sort, ids[k]),
        decreases kids.len() - i,
    {
        let id: NodeId = kids[i];
        proof {
            assert(crate::model::is_kid(t.nodes(), ids[i as int], dir as int));
        }
        let node = tree.node(id);
        let number: i128 = match sort {
            Sort::Size => if apparent {
                node.apparent as i128
            } else {
                node.disk as i128
            },
            Sort::Name => 0,
            Sort::Items => node.items as i128,
            Sort::Mtime => node.mtime as i128,
        };
        let name: Vec<u8> = match sort {
            Sort::Name => copy_bytes(tree.name(id)),
            _ => Vec::new(),
        };
        proof {
            assert(name@ =~= row_name(t, sort, id));
        }
        keys.push(RowKey { number, name });
        i += 1;
    }
    let order = stable_order(&keys);
    let ghost p = ints(order@);
    proof {
        assert(are_row_keys(t, sort, apparent, ids, keys@));
        lemma_row_order(t, sort, apparent, ids, keys@, p);
    }
    let n: usize = order.len();
    let mut rows: Vec<NodeId> = Vec::new();
    i = 0;
    while i < n
        invariant
            i <= n,
            n == order@.len(),
            n == ids.len(),
            ids == kids@,
            p == ints(order@),
            forall|k: int| 0 <= k < order@.len() ==> (#[trigger] order@[k]) < ids.len(),
            rows@.len() == i,
            forall|k: int|
                0 <= k < i ==> #[trigger] rows@[k] == ids[if reverse {
                    p[n - 1 - k]
                } else {
                    p[k]
                }],
        decreases n - i,
    {
        let at: usize = if reverse {
            order[n - 1 - i]
        } else {
            order[i]
        };
        rows.push(kids[at]);
        i += 1;
    }
    proof {
        assert(rows@ =~= listing(t, dir, sort, reverse, apparent));
        assert(is_row_order(t, sort, apparent, ids, p));
        self::rows::lemma_listing(t, dir, sort, reverse, apparent, p);
        assert forall|i: int| 0 <= i < rows@.len() implies t.holds(#[trigger] rows@[i])
            && t.nodes()[rows@[i] as int].parent == dir by {
            let k = if reverse {
                p[n - 1 - i]
            } else {
                p[i]
            };
            assert(rows@[i] == ids[k]);
            assert(crate::model::is_kid(t.nodes(), ids[k], dir as int));
        }
    }
    rows
}

impl App {
    /// Lists the directory anew.
    pub fn rebuild_rows(&mut self)
        requires
            old(self).tree.wf(),
            old(self).tree.holds(old(self).dir),
        ensures
            final(self)@ == old(self)@.relisted(),
            all_held(*final(self).tree, final(self).rows@),
            forall|i: int|
                0 <= i < final(self).rows@.len() ==> final(self).tree.nodes()[
                    #[trigger] final(self).rows@[i] as int
                ].parent == old(self).dir,
    {
        let rows = list_rows(&self.tree, self.dir, self.sort, self.reverse, self.apparent);
        let len: usize = rows.len();
        self.rows = rows;
        if len == 0 {
            self.cursor = 0;
        } else if self.cursor >= len {
            self.cursor = len - 1;
        }
        proof {
            assert(self@ =~= old(self)@.relisted());
        }
    }

    pub fn max_row_size(&self) -> (r: u64)
        requires
            self.wf(),
        ensures
            r == largest_size(*self.tree, self.apparent, self.rows@, self.rows@.len() as int),
    {
        let mut most: u64 = 0;
        let mut i: usize = 0;
        while i < self.rows.len()
            invariant
                i <= self.rows@.len(),
                self.wf(),
                most == largest_size(*self.tree, self.apparent, self.rows@, i as int),
            decreases self.rows.len() - i,
        {
            proof {
                assert(self@.rows == self.rows@);
                assert(self.tree.holds(self.rows@[i as int]));
            }
            let size: u64 = self.size_of(self.rows[i]);
            if size > most {
                most = size;
            }
            i += 1;
        }
        most
    }

    /// How many findings block a commit.
    pub fn error_total(&self) -> (r: usize)
        ensures
            r == errors_among(self@.findings, self@.findings.len() as int),
            r <= self.findings@.len(),
    {
        let mut n: usize = 0;
        let mut i: usize = 0;
        while i < self.findings.len()
            invariant
                i <= self.findings@.len(),
                n == errors_among(self@.findings, i as int),
                n <= i,
            decreases self.findings.len() - i,
        {
            proof {
                assert(self@.findings[i as int] == self.findings@[i as int]@);
            }
            if self.findings[i].severity == Severity::Error {
                n += 1;
            }
            i += 1;
        }
        n
    }

    pub fn has_errors(&self) -> (r: bool)
        ensures
            r == (errors_among(self@.findings, self@.findings.len() as int) > 0),
    {
        self.error_total() > 0
    }

    /// Build with an explicit configuration. `home` is where this user's files are, which is out
    /// of reach, and `headroom_percent` what is left free on a destination.
    pub fn with_config(
        tree: Arc<Tree>,
        config: &Config,
        home: &Option<Vec<u8>>,
        headroom_percent: u64,
        store: Store,
    ) -> (r: App)
        requires
            tree.wf(),
        ensures
            r.wf(),
            *r.tree == *tree,
            is_path_set(all_protected(config.safety, opt_view(*home)), r@.protected),
            r@.plan.version == PLAN_VERSION,
            r@.plan.root == tree.root(),
            r@.plan.ops.len() == 0,
            r@ == (Face {
                tree: *tree,
                dir: ROOT,
                cursor: 0,
                rows: listing(*tree, ROOT, Sort::Size, false, config.scan.apparent),
                sort: Sort::Size,
                reverse: false,
                apparent: config.scan.apparent,
                graph: Graph::Both,
                show_help: false,
                show_info: false,
                quit: false,
                view: Screen::Browse,
                marks: Set::empty(),
                staged: Map::empty(),
                prompt: None,
                status: None,
                plan: r@.plan,
                plan_nodes: Seq::empty(),
                findings: Seq::empty(),
                plan_cursor: 0,
                store,
                run: None,
                stale: false,
                show_treemap: config.scan.treemap,
                dupes: None,
                read_only: None,
                remote: None,
                protected: r@.protected,
                headroom_percent,
                remembered: Map::empty(),
                pending: PendingNote::Nothing,
            }),
    {
        let root = copy_bytes(tree.root_path());
        let mut app = App {
            tree,
            dir: ROOT,
            cursor: 0,
            rows: Vec::new(),
            sort: Sort::Size,
            reverse: false,
            apparent: config.scan.apparent,
            graph: Graph::Both,
            show_help: false,
            show_info: false,
            quit: false,
            view: Screen::Browse,
            marks: HashSet::new(),
            staged: HashMap::new(),
            prompt: None,
            status: None,
            plan: Plan::new(root),
            plan_nodes: Vec::new(),
            findings: Vec::new(),
            plan_cursor: 0,
            store,
            run: None,
            stale: false,
            show_treemap: config.scan.treemap,
            dupes: None,
            read_only: None,
            remote: None,
            protected: config.protected(home),
            headroom_percent,
            remembered: HashMap::new(),
            pending: Pending::Nothing,
        };
        let ghost before = app@;
        proof {
            assert(before.marks =~= Set::<NodeId>::empty());
            assert(before.staged =~= Map::<NodeId, StagedNote>::empty());
            assert(before.remembered =~= Map::<NodeId, usize>::empty());
            assert(before.findings =~= Seq::<Note>::empty());
            assert(before.plan_nodes =~= Seq::<NodeId>::empty());
            reveal(is_sound);
        }
        app.rebuild_rows();
        app
    }
}

} // verus!
