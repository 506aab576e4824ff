//! The list of identical files.

use vstd::prelude::*;

use crate::dup::{group_views, DupGroup, DupProgress, GroupNote};
use crate::model::{NodeId, Tree};
use crate::tui::app::browse::toggled;
use crate::tui::app::ids::{ids_in, sorted_set};
use crate::tui::app::stage::asks_about;
use crate::tui::app::{
    all_held, is_dup_row, staged_notes, Action, AfterLook, App, Ask, DupRow, Dupes, DupesNote, Face,
    Screen, Staging,
};

verus! {

broadcast use vstd::std_specs::hash::group_hash_axioms;

/// The first row from `i` on that holds a file, or `from`. Headers are labels, not choices.
pub open spec fn file_below(rows: Seq<DupRow>, from: int, i: int) -> int
    decreases rows.len() - i,
{
    if i >= rows.len() {
        from
    } else if rows[i] is File {
        i
    } else {
        file_below(rows, from, i + 1)
    }
}

/// The last row before `i` that holds a file, or `from`.
pub open spec fn file_above(rows: Seq<DupRow>, from: int, i: int) -> int
    decreases i,
{
    if i <= 0 {
        from
    } else if rows[i - 1] is File {
        i - 1
    } else {
        file_above(rows, from, i - 1)
    }
}

/// `n` files further down, as far as there are any.
pub open spec fn files_below(rows: Seq<DupRow>, from: int, n: nat) -> int
    decreases n,
{
    if n == 0 {
        from
    } else {
        let there = files_below(rows, from, (n - 1) as nat);
        file_below(rows, there, there + 1)
    }
}

/// `n` files further up, as far as there are any.
pub open spec fn files_above(rows: Seq<DupRow>, from: int, n: nat) -> int
    decreases n,
{
    if n == 0 {
        from
    } else {
        let there = files_above(rows, from, (n - 1) as nat);
        file_above(rows, there, there)
    }
}

/// The rows of the group `g`.
pub open spec fn group_rows(g: int, nodes: Seq<NodeId>) -> Seq<DupRow> {
    seq![DupRow::Header(g as usize)] + nodes.map_values(|id: NodeId| DupRow::File(g as usize, id))
}

/// The rows of the first `n` groups: a header for each, then its files.
pub open spec fn rows_of(groups: Seq<GroupNote>, n: int) -> Seq<DupRow>
    decreases n,
{
    if n <= 0 {
        Seq::empty()
    } else {
        rows_of(groups, n - 1) + group_rows(n - 1, groups[n - 1].nodes)
    }
}

/// Every copy but the first, which is kept. A bulk action that could empty a group is not a labour
/// saver, it is a way to lose the only copy.
pub open spec fn all_but_first(nodes: Seq<NodeId>) -> Seq<NodeId> {
    if nodes.len() == 0 {
        nodes
    } else {
        nodes.drop_first()
    }
}

impl DupesNote {
    pub open spec fn at(self, n: int) -> DupesNote {
        DupesNote { cursor: n as usize, ..self }
    }

    /// With what was found.
    pub open spec fn with_groups(self, groups: Seq<GroupNote>) -> DupesNote {
        let rows = rows_of(groups, groups.len() as int);
        DupesNote {
            groups,
            rows,
            cursor: file_below(rows, 0, 0) as usize,
            scanning: false,
            ..self
        }
    }
}

impl Face {
    /// With the cursor of the list of duplicates on another row.
    pub open spec fn dup_at(self, n: int) -> Face {
        Face { dupes: Some((self.dupes->0).at(n)), ..self }
    }

    /// What is looked for, started anew unless it is under way.
    pub open spec fn finding(self) -> Face {
        match self.dupes {
            Some(d) => if d.scanning {
                Face { view: Screen::Dupes, ..self }
            } else {
                self.finding_anew()
            },
            None => self.finding_anew(),
        }
    }

    pub open spec fn finding_anew(self) -> Face {
        Face {
            dupes: Some(
                DupesNote {
                    groups: Seq::empty(),
                    rows: Seq::empty(),
                    cursor: 0,
                    latest: DupProgress { candidates: 0, hashed: 0, bytes_read: 0 },
                    scanning: true,
                },
            ),
            view: Screen::Dupes,
            status: None,
            ..self
        }
    }

    /// What an action in the list of duplicates applies to.
    pub open spec fn dup_aims(self) -> Seq<NodeId> {
        if self.marks.len() == 0 {
            match self.dupes {
                Some(d) => match d.chosen() {
                    Some((_, id)) => seq![id],
                    None => Seq::empty(),
                },
                None => Seq::empty(),
            }
        } else {
            ids_in(self.marks)
        }
    }

    /// The copies that go when all but one of the group under the cursor are to.
    pub open spec fn spare_copies(self) -> Option<Seq<NodeId>> {
        match self.dupes {
            Some(d) => match d.chosen() {
                Some((g, _)) => if g < d.groups.len() {
                    Some(all_but_first(d.groups[g as int].nodes))
                } else {
                    None
                },
                None => None,
            },
            None => None,
        }
    }
}

/// What a key does in the list of duplicates.
#[verifier::opaque]
pub open spec fn dupes_step(was: Face, action: Action, now: Face, ask: Ask) -> bool {
    match was.dupes {
        None => ask is Nothing && now == (Face { view: Screen::Browse, ..was }),
        Some(d) => match action {
            Action::Down => ask is Nothing && now == was.dup_at(
                files_below(d.rows, d.cursor as int, 1),
            ),
            Action::Up => ask is Nothing && now == was.dup_at(
                files_above(d.rows, d.cursor as int, 1),
            ),
            Action::PageDown => ask is Nothing && now == was.dup_at(
                files_below(d.rows, d.cursor as int, 10),
            ),
            Action::PageUp => ask is Nothing && now == was.dup_at(
                files_above(d.rows, d.cursor as int, 10),
            ),
            Action::Top => ask is Nothing && now == was.dup_at(file_below(d.rows, 0, 0)),
            Action::Bottom => ask is Nothing && now == was.dup_at(
                file_above(d.rows, 0, d.rows.len() as int),
            ),
            Action::Mark => ask is Nothing && now == (match d.chosen() {
                Some((_, id)) => (Face { marks: toggled(was.marks, id), ..was }).dup_at(
                    files_below(d.rows, d.cursor as int, 1),
                ),
                None => was,
            }),
            Action::StageDelete => now == was.staging(was.dup_aims(), None) && asks_about(
                ask,
                was,
                now,
            ),
            Action::StageGroupRest => match was.spare_copies() {
                Some(targets) => now == was.staging(targets, None) && asks_about(ask, was, now),
                None => ask is Nothing && now == was,
            },
            Action::Unstage => ask is Nothing && now == (match d.chosen() {
                Some((_, id)) => (Face { staged: was.staged.remove(id), ..was }).says(
                    "unstaged"@,
                ),
                None => was,
            }),
            Action::TogglePlan => ask is Look && now.is_refreshed(was, AfterLook::Open),
            Action::ToggleHelp => ask is Nothing && now == (Face { show_help: true, ..was }),
            Action::ToggleDupes | Action::Dismiss | Action::Quit | Action::Leave => ask
                is StopDupes && now == (Face { view: Screen::Browse, ..was }),
            _ => ask is Nothing && now == was,
        },
    }
}

proof fn lemma_file_below(rows: Seq<DupRow>, from: int, i: int)
    requires
        0 <= i,
        0 <= from,
    ensures
        file_below(rows, from, i) == from || (i <= file_below(rows, from, i) < rows.len()
            && rows[file_below(rows, from, i)] is File),
    decreases rows.len() - i,
{
    if i < rows.len() && !(rows[i] is File) {
        lemma_file_below(rows, from, i + 1);
    }
}

proof fn lemma_file_above(rows: Seq<DupRow>, from: int, i: int)
    requires
        0 <= i <= rows.len(),
        0 <= from,
    ensures
        file_above(rows, from, i) == from || (0 <= file_above(rows, from, i) < i
            && rows[file_above(rows, from, i)] is File),
    decreases i,
{
    if i > 0 && !(rows[i - 1] is File) {
        lemma_file_above(rows, from, i - 1);
    }
}

fn is_file(row: &DupRow) -> (r: bool)
    ensures
        r == (*row is File),
{
    match row {
        DupRow::File(_, _) => true,
        DupRow::Header(_) => false,
    }
}

fn look_below(rows: &Vec<DupRow>, from: usize, start: usize) -> (r: usize)
    requires
        from < rows@.len() || from == 0,
    ensures
        r == file_below(rows@, from as int, start as int),
        r < rows@.len() || r == 0,
{
    let mut i: usize = start;
    proof {
        lemma_file_below(rows@, from as int, start as int);
    }
    while i < rows.len()
        invariant
            start <= i,
            file_below(rows@, from as int, start as int) == file_below(
                rows@,
                from as int,
                i as int,
            ),
        decreases rows.len() - i,
    {
        if is_file(&rows[i]) {
            return i;
        }
        i += 1;
    }
    from
}

fn look_above(rows: &Vec<DupRow>, from: usize, end: usize) -> (r: usize)
    requires
        from < rows@.len() || from == 0,
        end <= rows@.len(),
    ensures
        r == file_above(rows@, from as int, end as int),
        r < rows@.len() || r == 0,
{
    let mut i: usize = end;
    proof {
        lemma_file_above(rows@, from as int, end as int);
    }
    while i > 0
        invariant
            i <= end <= rows@.len(),
            file_above(rows@, from as int, end as int) == file_above(
                rows@,
                from as int,
                i as int,
            ),
        decreases i,
    {
        if is_file(&rows[i - 1]) {
            return i - 1;
        }
        i -= 1;
    }
    from
}

/// Move down by `n` files, skipping group headers. Stays put when there is nowhere to go.
fn go_below(rows: &Vec<DupRow>, from: usize, n: usize) -> (r: usize)
    requires
        from < rows@.len() || from == 0,
    ensures
        r == files_below(rows@, from as int, n as nat),
        r < rows@.len() || r == 0,
{
    let mut at: usize = from;
    let mut k: usize = 0;
    while k < n
        invariant
            k <= n,
            at == files_below(rows@, from as int, k as nat),
            at < rows@.len() || at == 0,
        decreases n - k,
    {
        if rows.len() == 0 {
            proof {
                assert(file_below(rows@, 0, 1) == 0);
            }
        } else {
            at = look_below(rows, at, at + 1);
        }
        k += 1;
    }
    at
}

fn go_above(rows: &Vec<DupRow>, from: usize, n: usize) -> (r: usize)
    requires
        from < rows@.len() || from == 0,
    ensures
        r == files_above(rows@, from as int, n as nat),
        r < rows@.len() || r == 0,
{
    let mut at: usize = from;
    let mut k: usize = 0;
    while k < n
        invariant
            k <= n,
            at == files_above(rows@, from as int, k as nat),
            at < rows@.len() || at == 0,
        decreases n - k,
    {
        at = look_above(rows, at, at);
        k += 1;
    }
    at
}

/// Flattens some groups for display.
fn flatten(groups: &Vec<DupGroup>) -> (r: Vec<DupRow>)
    ensures
        r@ == rows_of(group_views(groups@), groups@.len() as int),
{
    let mut rows: Vec<DupRow> = Vec::new();
    let ghost notes = group_views(groups@);
    let mut g: usize = 0;
    while g < groups.len()
        invariant
            g <= groups@.len(),
            notes == group_views(groups@),
            rows@ == rows_of(notes, g as int),
        decreases groups.len() - g,
    {
        let nodes = &groups[g].nodes;
        let ghost before = rows@;
        proof {
            assert(notes[g as int].nodes == nodes@);
        }
        rows.push(DupRow::Header(g));
        let mut i: usize = 0;
        while i < nodes.len()
            invariant
                i <= nodes@.len(),
                rows@ == before + seq![DupRow::Header(g)] + nodes@.take(i as int).map_values(
                    |id: NodeId| DupRow::File(g, id),
                ),
            decreases nodes.len() - i,
        {
            let ghost so_far = rows@;
            rows.push(DupRow::File(g, nodes[i]));
            proof {
                assert(rows@ =~= before + seq![DupRow::Header(g)] + nodes@.take(i + 1).map_values(
                    |id: NodeId| DupRow::File(g, id),
                ));
            }
            i += 1;
        }
        proof {
            assert(nodes@.take(nodes@.len() as int) =~= nodes@);
            assert(rows@ =~= before + group_rows(g as int, nodes@));
        }
        g += 1;
    }
    rows
}

proof fn lemma_rows_hold(t: Tree, groups: Seq<GroupNote>, n: int)
    requires
        0 <= n <= groups.len(),
        groups.len() <= usize::MAX,
        forall|g: int| 0 <= g < groups.len() ==> all_held(t, (#[trigger] groups[g]).nodes),
    ensures
        forall|i: int|
            0 <= i < rows_of(groups, n).len() ==> is_dup_row(
                t,
                groups.len(),
                #[trigger] rows_of(groups, n)[i],
            ),
    decreases n,
{
    if n > 0 {
        lemma_rows_hold(t, groups, n - 1);
        let before = rows_of(groups, n - 1);
        let all = rows_of(groups, n);
        assert forall|i: int| 0 <= i < all.len() implies is_dup_row(
            t,
            groups.len(),
            #[trigger] all[i],
        ) by {
            if i < before.len() {
                assert(all[i] == before[i]);
            } else if i == before.len() {
                assert(all[i] == DupRow::Header((n - 1) as usize));
            } else {
                let k = i - before.len() - 1;
                assert(all[i] == DupRow::File((n - 1) as usize, groups[n - 1].nodes[k]));
                assert(all_held(t, groups[n - 1].nodes));
                assert(t.holds(groups[n - 1].nodes[k]));
            }
        }
    }
}

impl App {
    /// Start looking for duplicates, and switch to the list of them.
    pub(crate) fn start_dupes(&mut self) -> (r: Ask)
        requires
            old(self).wf(),
            old(self).pending is Nothing,
        ensures
            final(self).wf(),
            final(self)@ == old(self)@.finding(),
            r is FindDupes == !(old(self)@.dupes matches Some(d) && d.scanning),
            !(r is FindDupes) ==> r is Nothing,
    {
        let under_way = match &self.dupes {
            Some(d) => d.scanning,
            None => false,
        };
        if under_way {
            self.switch_to(Screen::Dupes);
            return Ask::Nothing;
        }
        let fresh = Dupes {
            groups: Vec::new(),
            rows: Vec::new(),
            cursor: 0,
            latest: DupProgress::default(),
            scanning: true,
        };
        proof {
            assert(fresh@.groups =~= Seq::<GroupNote>::empty());
            assert(fresh@.rows =~= Seq::<DupRow>::empty());
        }
        self.dupes = Some(fresh);
        self.view = Screen::Dupes;
        self.status = None;
        proof {
            assert(self@ =~= old(self)@.finding());
        }
        Ask::FindDupes
    }

    /// Take in whatever the search for duplicates has reported.
    pub fn poll_dupes(&mut self, latest: Option<DupProgress>, found: Option<Vec<DupGroup>>)
        requires
            old(self).wf(),
            found matches Some(groups) ==> forall|g: int|
                0 <= g < groups@.len() ==> all_held(
                    *old(self).tree,
                    (#[trigger] groups@[g]).nodes@,
                ),
        ensures
            final(self).wf(),
            ({
                let was = old(self)@;
                match was.dupes {
                    None => final(self)@ == was,
                    Some(d) => {
                        let heard = match latest {
                            Some(p) => DupesNote { latest: p, ..d },
                            None => d,
                        };
                        final(self)@ == (Face {
                            dupes: Some(
                                match found {
                                    Some(groups) => if d.scanning {
                                        heard.with_groups(group_views(groups@))
                                    } else {
                                        heard
                                    },
                                    None => heard,
                                },
                            ),
                            ..was
                        })
                    },
                }
            }),
    {
        let ghost was = self@;
        let mut taken: Option<Dupes> = None;
        std::mem::swap(&mut taken, &mut self.dupes);
        match taken {
            None => {
                proof {
                    assert(self@ =~= was);
                }
            },
            Some(d) => {
                let mut d = d;
                let ghost first = d@;
                match latest {
                    Some(p) => {
                        d.latest = p;
                    },
                    None => {},
                }
                let ghost heard = match latest {
                    Some(p) => DupesNote { latest: p, ..first },
                    None => first,
                };
                proof {
                    assert(d@ =~= heard);
                }
                match found {
                    Some(groups) => {
                        if d.scanning {
                            proof {
                                let notes = group_views(groups@);
                                assert forall|g: int| 0 <= g < notes.len() implies all_held(
                                    was.tree,
                                    (#[trigger] notes[g]).nodes,
                                ) by {
                                    assert(notes[g].nodes == groups@[g].nodes@);
                                }
                                assert(groups@.len() == groups.len());
                                lemma_rows_hold(was.tree, notes, notes.len() as int);
                            }
                            let rows = flatten(&groups);
                            let cursor = look_below(&rows, 0, 0);
                            d.groups = groups;
                            d.rows = rows;
                            d.cursor = cursor;
                            d.scanning = false;
                            proof {
                                assert(d@ =~= heard.with_groups(group_views(groups@)));
                            }
                        }
                    },
                    None => {},
                }
                self.dupes = Some(d);
                proof {
                    assert(self@ =~= (Face { dupes: Some(d@), ..was }));
                }
            },
        }
    }

    /// Puts the cursor of the list of duplicates on another row.
    fn put_dup_cursor(&mut self, n: usize)
        requires
            old(self).wf(),
            old(self).dupes is Some,
            n < old(self).dupes->0.rows@.len() || n == 0,
        ensures
            final(self).wf(),
            final(self)@ == old(self)@.dup_at(n as int),
    {
        let ghost was = self@;
        let mut taken: Option<Dupes> = None;
        std::mem::swap(&mut taken, &mut self.dupes);
        match taken {
            None => {},
            Some(d) => {
                let moved = Dupes { cursor: n, ..d };
                proof {
                    assert(moved@ =~= d@.at(n as int));
                }
                self.dupes = Some(moved);
                proof {
                    assert(self@ =~= was.dup_at(n as int));
                }
            },
        }
    }

    fn toggle_mark_of(&mut self, id: NodeId)
        requires
            old(self).wf(),
            old(self).tree.holds(id),
        ensures
            final(self).wf(),
            final(self)@ == (Face { marks: toggled(old(self)@.marks, id), ..old(self)@ }),
            final(self).dupes == old(self).dupes,
    {
        if !self.marks.remove(&id) {
            self.marks.insert(id);
        }
        proof {
            assert(self.marks@ =~= toggled(old(self).marks@, id));
            assert(self@ =~= (Face { marks: toggled(old(self)@.marks, id), ..old(self)@ }));
        }
    }

    /// What an action in the list of duplicates applies to.
    fn dup_targets(&self) -> (r: Vec<NodeId>)
        requires
            self.wf(),
        ensures
            r@ == self@.dup_aims(),
            all_held(*self.tree, r@),
    {
        if self.marks.len() == 0 {
            let mut out: Vec<NodeId> = Vec::new();
            match &self.dupes {
                Some(d) => match d.selected() {
                    Some((_, id)) => {
                        out.push(id);
                    },
                    None => {},
                },
                None => {},
            }
            proof {
                assert(out@ =~= self@.dup_aims());
            }
            out
        } else {
            let out = sorted_set(&self.marks);
            proof {
                assert forall|i: int| 0 <= i < out@.len() implies self.tree.holds(
                    #[trigger] out@[i],
                ) by {
                    assert(out@.to_set().contains(out@[i]));
                    assert(self@.marks.contains(out@[i]));
                }
            }
            out
        }
    }

    /// Every copy in the group under the cursor except the first, which is kept.
    fn spare_targets(&self) -> (r: Option<Vec<NodeId>>)
        requires
            self.wf(),
        ensures
            match r {
                Some(targets) => self@.spare_copies() == Some(targets@) && all_held(
                    *self.tree,
                    targets@,
                ),
                None => self@.spare_copies() is None,
            },
    {
        match &self.dupes {
            None => None,
            Some(d) => match d.selected() {
                None => None,
                Some((g, _)) => {
                    if g >= d.groups.len() {
                        return None;
                    }
                    let nodes = &d.groups[g].nodes;
                    proof {
                        assert(d@.groups[g as int].nodes == nodes@);
                        assert(all_held(*self.tree, d@.groups[g as int].nodes));
                    }
                    let mut out: Vec<NodeId> = Vec::new();
                    let mut i: usize = 1;
                    while i < nodes.len()
                        invariant
                            1 <= i,
                            i <= nodes@.len() || i == 1,
                            out@.len() == i - 1,
                            all_held(*self.tree, nodes@),
                            forall|k: int| 0 <= k < out@.len() ==> #[trigger] out@[k] == nodes@[k
                                + 1],
                        decreases nodes.len() - i,
                    {
                        out.push(nodes[i]);
                        i += 1;
                    }
                    proof {
                        assert(out@ =~= all_but_first(nodes@));
                    }
                    Some(out)
                },
            },
        }
    }

    fn unstage_chosen(&mut self, id: NodeId)
        requires
            old(self).wf(),
        ensures
            final(self).wf(),
            final(self)@ == (Face { staged: old(self)@.staged.remove(id), ..old(self)@ }).says(
                "unstaged"@,
            ),
    {
        let ghost before = self.staged@;
        self.staged.remove(&id);
        self.status = Some(String::from_str("unstaged"));
        proof {
            assert(self.staged@ =~= before.remove(id));
            assert(staged_notes(before.remove(id)) =~= staged_notes(before).remove(id));
            assert(self@ =~= (Face {
                staged: old(self)@.staged.remove(id),
                ..old(self)@
            }).says("unstaged"@));
        }
    }

    /// A key was pressed in the list of duplicates.
    pub(crate) fn dupes_key(&mut self, action: Action) -> (r: Ask)
        requires
            old(self).wf(),
            old(self).pending is Nothing,
        ensures
            final(self).wf(),
            dupes_step(old(self)@, action, final(self)@, r),
    {
        proof {
            reveal(dupes_step);
        }
        let (moved, chosen): (usize, Option<(usize, NodeId)>) = match &self.dupes {
            None => {
                self.switch_to(Screen::Browse);
                return Ask::Nothing;
            },
            Some(d) => {
                let moved: usize = match action {
                    Action::Down => go_below(&d.rows, d.cursor, 1),
                    Action::Mark => go_below(&d.rows, d.cursor, 1),
                    Action::Up => go_above(&d.rows, d.cursor, 1),
                    Action::PageDown => go_below(&d.rows, d.cursor, 10),
                    Action::PageUp => go_above(&d.rows, d.cursor, 10),
                    Action::Top => look_below(&d.rows, 0, 0),
                    Action::Bottom => look_above(&d.rows, 0, d.rows.len()),
                    _ => d.cursor,
                };
                (moved, d.selected())
            },
        };
        match action {
            Action::Down | Action::Up | Action::PageDown | Action::PageUp | Action::Top
            | Action::Bottom => {
                self.put_dup_cursor(moved);
                Ask::Nothing
            },
            Action::Mark => {
                match chosen {
                    Some((_, id)) => {
                        self.toggle_mark_of(id);
                        self.put_dup_cursor(moved);
                    },
                    None => {},
                }
                Ask::Nothing
            },
            Action::StageDelete => {
                let targets = self.dup_targets();
                self.stage(targets, Staging::Delete)
            },
            Action::StageGroupRest => match self.spare_targets() {
                Some(targets) => self.stage(targets, Staging::Delete),
                None => Ask::Nothing,
            },
            Action::Unstage => {
                match chosen {
                    Some((_, id)) => {
                        self.unstage_chosen(id);
                    },
                    None => {},
                }
                Ask::Nothing
            },
            Action::TogglePlan => self.open_plan(),
            Action::ToggleHelp => {
                self.open_help();
                Ask::Nothing
            },
            Action::ToggleDupes | Action::Dismiss | Action::Quit | Action::Leave => {
                self.switch_to(Screen::Browse);
                Ask::StopDupes
            },
            _ => Ask::Nothing,
        }
    }
}

/// Staging the spare copies of a group never stages the one that is kept.
pub proof fn law_one_copy_is_kept(nodes: Seq<NodeId>)
    requires
        nodes.len() > 0,
        nodes.no_duplicates(),
    ensures
        !all_but_first(nodes).contains(nodes[0]),
        all_but_first(nodes).len() == nodes.len() - 1,
{
    let rest = all_but_first(nodes);
    if rest.contains(nodes[0]) {
        let i = choose|i: int| 0 <= i < rest.len() && rest[i] == nodes[0];
        assert(rest[i] == nodes[i + 1]);
    }
}

} // verus!
