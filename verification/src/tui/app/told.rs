//! What the browser does with what it shows, told off the tree and what is staged.

use vstd::prelude::*;

use super::browse::{marked_among, position, toggled, unlisted};
use super::dupes::{all_but_first, file_above, file_below, group_rows, rows_of};
use super::input::{applied, apparent_toggled, moved, sorted_by, work_step};
use super::ids::{ids_in, is_ascending, lemma_ids_exist};
use super::review::{
    are_findings, checks, confirm_step, heard, is_tidy, plan_step, polled, running_step,
};
use super::rows::is_listing_of;
use super::stage::{
    first_gone, staged_sum, staged_total, staged_with, text_end, text_start, trimmed, unstaged_with,
};
use super::{
    clamped, errors_among, largest_size, listing, op_notes, plan_note, Action, AfterLook, Ask, DupRow,
    DupesNote, Face, PendingNote, PlanNote, RunNote, Screen, Sort, StagedNote,
};
use crate::dup::GroupNote;
use crate::exec::{ExecEvent, Outcome};
use crate::model::{NodeId, Tree};
use crate::path::joined;
use crate::plan::refused::blames;
use crate::plan::sound::{
    goes_wrongly, is_hindered, law_an_operation_is_refused_for_a_reason, takes_wrongly,
};
use crate::plan::validate::{
    all_notes, in_note_order, path_views, Note, Severity, ValidateOptions, World,
};
use crate::plan::{normalized, Conflict, Ident, Op, Plan};
use crate::text::{is_space, shown};

verus! {

/// A directory that holds something is gone into, and what it holds is listed from the top; nothing
/// else is gone into.
pub proof fn law_what_is_opened(face: Face, id: NodeId)
    requires
        face.cursor < face.rows.len(),
        face.rows[face.cursor as int] == id,
    ensures
        ({
            let node = face.tree.nodes()[id as int];
            let now = face.entered();
            if node.flags & 1 != 0 && node.flags & 2 == 0 && face.tree.kids()[id as int].len() > 0 {
                &&& now.dir == id
                &&& now.rows == listing(face.tree, id, face.sort, face.reverse, face.apparent)
                &&& now.cursor == 0
                &&& now.staged == face.staged
                &&& now.marks == face.marks
            } else {
                now == face
            }
        }),
{
}

/// Going back up leads to where one came from: the same directory, the same listing, and the cursor
/// on the same row.
pub proof fn law_going_back_up_undoes_going_in(face: Face)
    requires
        face.wf(),
        face.rows == listing(face.tree, face.dir, face.sort, face.reverse, face.apparent),
        is_listing_of(
            face.tree,
            face.dir,
            face.sort,
            face.reverse,
            face.apparent,
            face.rows,
        ),
        face.entered().dir != face.dir,
    ensures
        ({
            let back = face.entered().left();
            &&& back.dir == face.dir
            &&& back.rows == face.rows
            &&& back.cursor == face.cursor
            &&& back.staged == face.staged
            &&& back.marks == face.marks
        }),
{
    let id = face.rows[face.cursor as int];
    assert(face.rows.contains(id));
    assert(face.tree.nodes()[id as int].parent == face.dir);
}

/// Going up from a directory leads to the one it lies in, with the cursor on the directory that was
/// left, and the top is not left.
pub proof fn law_going_up_shows_where_one_was(face: Face)
    requires
        face.wf(),
        face.dir != 0,
        is_listing_of(
            face.tree,
            face.tree.nodes()[face.dir as int].parent,
            face.sort,
            face.reverse,
            face.apparent,
            listing(
                face.tree,
                face.tree.nodes()[face.dir as int].parent,
                face.sort,
                face.reverse,
                face.apparent,
            ),
        ),
        listing(
            face.tree,
            face.tree.nodes()[face.dir as int].parent,
            face.sort,
            face.reverse,
            face.apparent,
        ).len() <= usize::MAX,
    ensures
        face.left().dir == face.tree.nodes()[face.dir as int].parent,
        face.left().cursor < face.left().rows.len(),
        face.left().rows[face.left().cursor as int] == face.dir,
{
    let up = face.tree.nodes()[face.dir as int].parent;
    let rows = listing(face.tree, up, face.sort, face.reverse, face.apparent);
    assert(rows.contains(face.dir));
    let k = choose|k: int| 0 <= k < rows.len() && rows[k] == face.dir;
    lemma_position(rows, face.dir, 0, k);
}

proof fn lemma_position(rows: Seq<NodeId>, id: NodeId, i: int, k: int)
    requires
        0 <= i <= k < rows.len(),
        rows[k] == id,
    ensures
        i <= position(rows, id, i) <= k,
        rows[position(rows, id, i)] == id,
    decreases k - i,
{
    if rows[i] != id {
        lemma_position(rows, id, i + 1, k);
    }
}

/// Without marks an action applies to the row under the cursor; with marks to each of them once.
pub proof fn law_what_an_action_applies_to(face: Face)
    requires
        face.marks.finite(),
        face.rows.no_duplicates(),
    ensures
        face.marks == Set::<NodeId>::empty() && face.cursor < face.rows.len() ==> face.aims()
            == seq![face.rows[face.cursor as int]],
        face.marks == Set::<NodeId>::empty() && face.cursor >= face.rows.len() ==> face.aims().len()
            == 0,
        face.marks != Set::<NodeId>::empty() ==> {
            &&& face.aims().no_duplicates()
            &&& forall|id: NodeId| #[trigger]
                face.aims().contains(id) == face.marks.contains(id)
        },
{
    if face.marks != Set::<NodeId>::empty() {
        if face.marks.len() == 0 {
            vstd::set_lib::lemma_set_empty_equivalency_len(face.marks);
            assert(face.marks =~= Set::<NodeId>::empty());
        }
        super::browse::law_every_mark_is_acted_on(face);
        lemma_aims_once(face.rows, face.marks);
        assert forall|id: NodeId| #[trigger] face.aims().contains(id) == face.marks.contains(
            id,
        ) by {
            assert(face.aims().to_set().contains(id) == face.aims().contains(id));
        }
    }
}

proof fn lemma_aims_once(rows: Seq<NodeId>, marks: Set<NodeId>)
    requires
        marks.finite(),
        rows.no_duplicates(),
    ensures
        ({
            let ids = ids_in(marks);
            (marked_among(rows, marks, rows.len() as int) + unlisted(
                ids,
                rows,
                ids.len() as int,
            )).no_duplicates()
        }),
{
    let ids = ids_in(marks);
    lemma_ids_exist(marks);
    let n = rows.len() as int;
    lemma_marked_once(rows, marks, n);
    lemma_unlisted_once(ids, rows, ids.len() as int);
    let a = marked_among(rows, marks, n);
    let b = unlisted(ids, rows, ids.len() as int);
    assert forall|i: int, j: int| 0 <= i < a.len() && 0 <= j < b.len() implies #[trigger] a[i]
        != #[trigger] b[j] by {
        assert(a.contains(a[i]));
        assert(b.contains(b[j]));
    }
    let all = a + b;
    assert forall|i: int, j: int|
        0 <= i < all.len() && 0 <= j < all.len() && i != j implies all[i] != all[j] by {
        if i < a.len() && j < a.len() {
            assert(all[i] == a[i] && all[j] == a[j]);
        } else if i < a.len() {
            assert(all[i] == a[i] && all[j] == b[j - a.len()]);
        } else if j < a.len() {
            assert(all[j] == a[j] && all[i] == b[i - a.len()]);
        } else {
            assert(all[i] == b[i - a.len()] && all[j] == b[j - a.len()]);
        }
    }
}

proof fn lemma_marked_once(rows: Seq<NodeId>, marks: Set<NodeId>, n: int)
    requires
        0 <= n <= rows.len(),
        rows.no_duplicates(),
    ensures
        marked_among(rows, marks, n).no_duplicates(),
        forall|id: NodeId| #[trigger]
            marked_among(rows, marks, n).contains(id) ==> rows.take(n).contains(id),
        forall|id: NodeId| #[trigger]
            marked_among(rows, marks, n).contains(id) ==> rows.contains(id),
    decreases n,
{
    if n > 0 {
        lemma_marked_once(rows, marks, n - 1);
        let before = marked_among(rows, marks, n - 1);
        let now = marked_among(rows, marks, n);
        assert forall|id: NodeId| #[trigger] now.contains(id) implies rows.take(n).contains(id)
            && rows.contains(id) by {
            let k = choose|k: int| 0 <= k < now.len() && now[k] == id;
            if k < before.len() {
                assert(before.contains(before[k]));
                let shorter = rows.take(n - 1);
                let m = choose|m: int| 0 <= m < n - 1 && shorter[m] == id;
                assert(rows.take(n)[m] == id);
            } else {
                assert(rows.take(n)[n - 1] == id);
                assert(rows[n - 1] == id);
            }
        }
        if marks.contains(rows[n - 1]) {
            if before.contains(rows[n - 1]) {
                let shorter = rows.take(n - 1);
                let m = choose|m: int| 0 <= m < n - 1 && shorter[m] == rows[n - 1];
                assert(rows[m] == rows[n - 1]);
            }
        }
    }
}

proof fn lemma_unlisted_once(ids: Seq<NodeId>, rows: Seq<NodeId>, n: int)
    requires
        0 <= n <= ids.len(),
        is_ascending(ids),
    ensures
        unlisted(ids, rows, n).no_duplicates(),
        forall|id: NodeId| #[trigger]
            unlisted(ids, rows, n).contains(id) ==> !rows.contains(id) && exists|k: int|
                0 <= k < n && ids[k] == id,
    decreases n,
{
    if n > 0 {
        lemma_unlisted_once(ids, rows, n - 1);
        let before = unlisted(ids, rows, n - 1);
        let now = unlisted(ids, rows, n);
        assert forall|id: NodeId| #[trigger] now.contains(id) implies !rows.contains(id) && exists|
            k: int,
        |
            0 <= k < n && ids[k] == id by {
            let k = choose|k: int| 0 <= k < now.len() && now[k] == id;
            if k < before.len() {
                assert(before.contains(before[k]));
                let m = choose|m: int| 0 <= m < n - 1 && ids[m] == id;
                assert(ids[m] == id);
            } else {
                assert(ids[n - 1] == id);
            }
        }
        if before.contains(ids[n - 1]) {
            let last = ids[n - 1];
            let m = choose|m: int| 0 <= m < n - 1 && ids[m] == last;
            assert(ids[m] < ids[n - 1]);
        }
    }
}

/// What is noted of an entry when it is staged: what it was found to be, what it takes up on disk,
/// and if it is to be moved, its own name in the directory it goes to.
pub open spec fn is_noted(t: Tree, id: NodeId, into: Option<Seq<u8>>, ident: Ident, s: StagedNote) -> bool {
    &&& s.ident == ident
    &&& s.est_bytes == t.nodes()[id as int].disk
    &&& match into {
        None => s.to is None,
        Some(dir) => s.to == Some(joined(dir, t.spec_name(id))),
    }
}

/// Everything that was found to be there is staged, each entry as what it was found to be, and
/// nothing else that is staged changes.
pub proof fn law_everything_found_is_staged(
    face: Face,
    targets: Seq<NodeId>,
    into: Option<Seq<u8>>,
    idents: Seq<Option<Ident>>,
)
    requires
        targets.len() == idents.len(),
        targets.no_duplicates(),
        forall|i: int| 0 <= i < idents.len() ==> (#[trigger] idents[i]) is Some,
    ensures
        ({
            let now = face.recorded(targets, into, idents);
            &&& forall|i: int|
                0 <= i < targets.len() ==> now.staged.contains_key(#[trigger] targets[i])
                    && is_noted(face.tree, targets[i], into, idents[i]->0, now.staged[targets[i]])
            &&& forall|id: NodeId|
                !targets.contains(id) ==> {
                    &&& #[trigger] now.staged.contains_key(id) == face.staged.contains_key(id)
                    &&& face.staged.contains_key(id) ==> now.staged[id] == face.staged[id]
                }
            &&& now.marks == Set::<NodeId>::empty()
        }),
{
    let n = targets.len() as int;
    lemma_none_gone(idents, 0, n);
    lemma_staged_with(face.tree, face.staged, targets, into, idents, n);
}

proof fn lemma_none_gone(idents: Seq<Option<Ident>>, i: int, n: int)
    requires
        0 <= i <= n <= idents.len(),
        forall|k: int| i <= k < n ==> (#[trigger] idents[k]) is Some,
    ensures
        first_gone(idents, i, n) == n,
    decreases n - i,
{
    if i < n {
        assert(idents[i] is Some);
        lemma_none_gone(idents, i + 1, n);
    }
}

proof fn lemma_staged_with(
    t: Tree,
    staged: Map<NodeId, StagedNote>,
    targets: Seq<NodeId>,
    into: Option<Seq<u8>>,
    idents: Seq<Option<Ident>>,
    n: int,
)
    requires
        0 <= n <= targets.len(),
        n <= idents.len(),
        targets.no_duplicates(),
    ensures
        ({
            let now = staged_with(t, staged, targets, into, idents, n);
            &&& forall|i: int|
                0 <= i < n ==> now.contains_key(#[trigger] targets[i]) && is_noted(
                    t,
                    targets[i],
                    into,
                    idents[i]->0,
                    now[targets[i]],
                )
            &&& forall|id: NodeId|
                (forall|i: int| 0 <= i < n ==> targets[i] != id) ==> {
                    &&& #[trigger] now.contains_key(id) == staged.contains_key(id)
                    &&& staged.contains_key(id) ==> now[id] == staged[id]
                }
        }),
    decreases n,
{
    if n > 0 {
        lemma_staged_with(t, staged, targets, into, idents, n - 1);
        let before = staged_with(t, staged, targets, into, idents, n - 1);
        let now = staged_with(t, staged, targets, into, idents, n);
        assert forall|i: int| 0 <= i < n implies now.contains_key(#[trigger] targets[i]) && is_noted(
            t,
            targets[i],
            into,
            idents[i]->0,
            now[targets[i]],
        ) by {
            if i < n - 1 {
                assert(targets[i] != targets[n - 1]);
                assert(before.contains_key(targets[i]));
            }
        }
        assert forall|id: NodeId| (forall|i: int| 0 <= i < n ==> targets[i] != id) implies {
            &&& #[trigger] now.contains_key(id) == staged.contains_key(id)
            &&& staged.contains_key(id) ==> now[id] == staged[id]
        } by {
            assert(targets[n - 1] != id);
            assert(before.contains_key(id) == staged.contains_key(id));
        }
    }
}

/// Where an entry is no longer there, it is said so: neither it nor what comes after it is staged, and
/// the marks stay.
pub proof fn law_what_is_gone_is_not_staged(
    face: Face,
    targets: Seq<NodeId>,
    into: Option<Seq<u8>>,
    idents: Seq<Option<Ident>>,
    gone: int,
)
    requires
        targets.len() == idents.len(),
        targets.no_duplicates(),
        0 <= gone < idents.len(),
        idents[gone] is None,
        forall|i: int| 0 <= i < gone ==> (#[trigger] idents[i]) is Some,
    ensures
        ({
            let now = face.recorded(targets, into, idents);
            &&& forall|i: int|
                0 <= i < gone ==> now.staged.contains_key(#[trigger] targets[i])
            &&& forall|i: int|
                gone <= i < targets.len() ==> now.staged.contains_key(#[trigger] targets[i])
                    == face.staged.contains_key(targets[i])
            &&& now.marks == face.marks
            &&& now.status == Some(
                "cannot stage "@ + shown(face.tree.spec_path(targets[gone]))
                    + ": it is no longer there"@,
            )
        }),
{
    let n = targets.len() as int;
    lemma_first_gone(idents, 0, n, gone);
    lemma_staged_with(face.tree, face.staged, targets, into, idents, gone);
}

proof fn lemma_first_gone(idents: Seq<Option<Ident>>, i: int, n: int, gone: int)
    requires
        0 <= i <= gone < n <= idents.len(),
        idents[gone] is None,
        forall|k: int| i <= k < gone ==> (#[trigger] idents[k]) is Some,
    ensures
        first_gone(idents, i, n) == gone,
    decreases gone - i,
{
    if i < gone {
        assert(idents[i] is Some);
        lemma_first_gone(idents, i + 1, n, gone);
    }
}

/// Nothing that is unstaged stays staged, and everything else does.
pub proof fn law_what_is_unstaged(face: Face, id: NodeId)
    ensures
        face.unstaged().staged.contains_key(id) == (face.staged.contains_key(id)
            && !face.aims().contains(id)),
        face.unstaged().staged.contains_key(id) ==> face.unstaged().staged[id] == face.staged[id],
{
    let targets = face.aims();
    lemma_unstaged(face.staged, targets, targets.len() as int, id);
    assert(targets.take(targets.len() as int) =~= targets);
}

proof fn lemma_unstaged(
    staged: Map<NodeId, StagedNote>,
    targets: Seq<NodeId>,
    n: int,
    id: NodeId,
)
    requires
        0 <= n <= targets.len(),
    ensures
        ({
            let left = unstaged_with(staged, targets, n).0;
            &&& left.contains_key(id) == (staged.contains_key(id) && !targets.take(n).contains(id))
            &&& left.contains_key(id) ==> left[id] == staged[id]
        }),
    decreases n,
{
    if n > 0 {
        lemma_unstaged(staged, targets, n - 1, id);
        let (was, now) = (targets.take(n - 1), targets.take(n));
        assert(now =~= was.push(targets[n - 1]));
        vstd::seq_lib::lemma_seq_contains_after_push::<NodeId>(was, targets[n - 1], id);
    }
}

/// What the first `n` of these would free together, moves aside.
pub open spec fn freed_together(staged: Map<NodeId, StagedNote>, ids: Seq<NodeId>, n: int) -> nat
    decreases n,
{
    if n <= 0 {
        0
    } else {
        freed_together(staged, ids, n - 1) + if staged[ids[n - 1]].to is None {
            staged[ids[n - 1]].est_bytes as nat
        } else {
            0nat
        }
    }
}

/// What is said to be staged for deletion is the sum of it all, each entry once, as far as it can be
/// counted.
pub proof fn law_what_is_staged_is_added_up(staged: Map<NodeId, StagedNote>)
    requires
        staged.dom().finite(),
    ensures
        ({
            let ids = ids_in(staged.dom());
            let sum = freed_together(staged, ids, ids.len() as int);
            &&& ids.no_duplicates()
            &&& ids.to_set() == staged.dom()
            &&& staged_total(staged) == if sum > u64::MAX {
                u64::MAX as nat
            } else {
                sum
            }
        }),
{
    lemma_ids_exist(staged.dom());
    let ids = ids_in(staged.dom());
    lemma_freed(staged, ids, ids.len() as int);
    assert forall|i: int, j: int| 0 <= i < ids.len() && 0 <= j < ids.len() && i != j implies ids[i]
        != ids[j] by {
        if i < j {
            assert(ids[i] < ids[j]);
        } else {
            assert(ids[j] < ids[i]);
        }
    }
}

proof fn lemma_freed(staged: Map<NodeId, StagedNote>, ids: Seq<NodeId>, n: int)
    ensures
        staged_sum(staged, ids, n) == if freed_together(staged, ids, n) > u64::MAX {
            u64::MAX as nat
        } else {
            freed_together(staged, ids, n)
        },
    decreases n,
{
    if n > 0 {
        lemma_freed(staged, ids, n - 1);
    }
}

/// A plan holds one operation for each entry that is staged, and no other: it takes the entry at its
/// path, as what it was staged, to where it was staged to go, and never replaces anything there.
pub proof fn law_every_staged_change_is_planned(
    face: Face,
    after: AfterLook,
    created: i64,
    host: Seq<char>,
)
    requires
        face.staged.dom().finite(),
    ensures
        ({
            let now = face.refreshed(after, created, host);
            let ids = now.plan_nodes;
            &&& ids.to_set() == face.staged.dom()
            &&& is_ascending(ids)
            &&& now.plan.ops.len() == ids.len()
            &&& forall|i: int|
                0 <= i < ids.len() ==> {
                    let op = #[trigger] now.plan.ops[i];
                    let staged = face.staged[ids[i]];
                    &&& op.from == face.tree.spec_path(ids[i])
                    &&& op.to == staged.to
                    &&& op.ident == staged.ident
                    &&& op.est_bytes == staged.est_bytes
                    &&& op.on_conflict == (if staged.to is Some {
                        Some(Conflict::Fail)
                    } else {
                        None
                    })
                }
            &&& now.plan.root == face.tree.root()
            &&& now.plan.host == host
            &&& now.plan.id == face.plan.id
            &&& now.plan.version == 1
            &&& now.staged == face.staged
        }),
{
    lemma_ids_exist(face.staged.dom());
}

/// Errors are counted one by one, and only they are.
pub proof fn law_errors_are_counted(findings: Seq<Note>, n: int)
    requires
        0 <= n <= findings.len(),
    ensures
        errors_among(findings, n) == findings.take(n).filter(
            |f: Note| f.severity == Severity::Error,
        ).len(),
        (errors_among(findings, n) > 0) == exists|i: int|
            0 <= i < n && (#[trigger] findings[i]).severity == Severity::Error,
    decreases n,
{
    reveal(Seq::filter);
    if n > 0 {
        law_errors_are_counted(findings, n - 1);
        assert(findings.take(n).drop_last() =~= findings.take(n - 1));
        if exists|i: int| 0 <= i < n && (#[trigger] findings[i]).severity == Severity::Error {
            let i = choose|i: int|
                0 <= i < n && (#[trigger] findings[i]).severity == Severity::Error;
            if i < n - 1 {
                assert(findings[i].severity == Severity::Error);
            }
        }
    }
}

/// The largest of the rows is as large as any of them, and one of them.
pub proof fn law_the_largest_row(t: Tree, apparent: bool, rows: Seq<NodeId>, n: int)
    requires
        0 <= n <= rows.len(),
    ensures
        forall|i: int|
            0 <= i < n ==> largest_size(t, apparent, rows, n) >= if apparent {
                t.nodes()[#[trigger] rows[i] as int].apparent
            } else {
                t.nodes()[rows[i] as int].disk
            },
        n > 0 ==> exists|i: int|
            0 <= i < n && largest_size(t, apparent, rows, n) == if apparent {
                t.nodes()[#[trigger] rows[i] as int].apparent
            } else {
                t.nodes()[rows[i] as int].disk
            },
        n == 0 ==> largest_size(t, apparent, rows, n) == 0,
    decreases n,
{
    if n > 0 {
        law_the_largest_row(t, apparent, rows, n - 1);
        let before = largest_size(t, apparent, rows, n - 1);
        let last = if apparent {
            t.nodes()[rows[n - 1] as int].apparent
        } else {
            t.nodes()[rows[n - 1] as int].disk
        };
        if last > before {
            assert(rows[n - 1] == rows[n - 1]);
        } else if n > 1 {
            let i = choose|i: int|
                0 <= i < n - 1 && before == if apparent {
                    t.nodes()[#[trigger] rows[i] as int].apparent
                } else {
                    t.nodes()[rows[i] as int].disk
                };
            assert(rows[i] == rows[i]);
        } else {
            assert(rows[0] == rows[0]);
        }
    }
}

/// Every event is told, in the order it came, and every operation that is over counts once.
pub proof fn law_every_event_is_told(run: RunNote, events: Seq<ExecEvent>, n: int)
    requires
        0 <= n <= events.len(),
        run.completed + n <= usize::MAX,
    ensures
        ({
            let now = heard(run, events, n);
            &&& now.log.len() == run.log.len() + n
            &&& now.log.take(run.log.len() as int) == run.log
            &&& now.completed == run.completed + events.take(n).filter(
                |e: ExecEvent| !(e is Started),
            ).len()
            &&& now.total == run.total
            &&& now.summary == run.summary
            &&& now.plan_id == run.plan_id
        }),
    decreases n,
{
    reveal(Seq::filter);
    if n > 0 {
        law_every_event_is_told(run, events, n - 1);
        let before = heard(run, events, n - 1);
        assert(events.take(n).drop_last() =~= events.take(n - 1));
        let told = |e: ExecEvent| !(e is Started);
        assert(events.take(n - 1).filter(told).len() <= n - 1) by {
            broadcast use vstd::seq_lib::group_filter_ensures;

        }
        assert(heard(run, events, n).log.take(run.log.len() as int) =~= before.log.take(
            run.log.len() as int,
        ));
    } else {
        assert(run.log.take(run.log.len() as int) =~= run.log);
        assert(events.take(0) =~= Seq::<ExecEvent>::empty());
    }
}

/// Every file of every group has a row of its own, and every group a heading; groups come one after
/// another, and the files of a group below its heading in the order they were found.
pub proof fn law_every_copy_has_a_row(groups: Seq<GroupNote>, n: int, g: int)
    requires
        0 <= g < n <= groups.len(),
        n <= usize::MAX,
    ensures
        exists|at: int|
            {
                &&& 0 <= at
                &&& at + groups[g].nodes.len() < rows_of(groups, n).len()
                &&& #[trigger] rows_of(groups, n)[at] == DupRow::Header(g as usize)
                &&& forall|k: int|
                    0 <= k < groups[g].nodes.len() ==> rows_of(groups, n)[at + 1 + k]
                        == DupRow::File(g as usize, #[trigger] groups[g].nodes[k])
            },
        rows_of(groups, n).len() == rows_of(groups, n - 1).len() + 1 + groups[n - 1].nodes.len(),
    decreases n,
{
    let before = rows_of(groups, n - 1);
    let now = rows_of(groups, n);
    let last = group_rows(n - 1, groups[n - 1].nodes);
    assert(now == before + last);
    if g == n - 1 {
        let at = before.len() as int;
        assert(now[at] == last[0]);
        assert forall|k: int| 0 <= k < groups[g].nodes.len() implies now[at + 1 + k]
            == DupRow::File(g as usize, #[trigger] groups[g].nodes[k]) by {
            assert(now[at + 1 + k] == last[1 + k]);
        }
    } else {
        law_every_copy_has_a_row(groups, n - 1, g);
        let at = choose|at: int|
            {
                &&& 0 <= at
                &&& at + groups[g].nodes.len() < before.len()
                &&& #[trigger] before[at] == DupRow::Header(g as usize)
                &&& forall|k: int|
                    0 <= k < groups[g].nodes.len() ==> before[at + 1 + k] == DupRow::File(
                        g as usize,
                        #[trigger] groups[g].nodes[k],
                    )
            };
        assert(now[at] == before[at]);
        assert forall|k: int| 0 <= k < groups[g].nodes.len() implies now[at + 1 + k]
            == DupRow::File(g as usize, #[trigger] groups[g].nodes[k]) by {
            assert(now[at + 1 + k] == before[at + 1 + k]);
        }
    }
}

/// All copies of a file but the first are spare.
pub proof fn law_which_copies_are_spare(nodes: Seq<NodeId>)
    ensures
        nodes.len() > 0 ==> all_but_first(nodes) == nodes.skip(1),
        nodes.len() == 0 ==> all_but_first(nodes).len() == 0,
{
    if nodes.len() > 0 {
        assert(all_but_first(nodes) =~= nodes.skip(1));
    }
}

/// The next file down is the first below, over any headings, and the next one up the last above.
pub proof fn law_headings_are_stepped_over(rows: Seq<DupRow>, from: int, i: int, k: int)
    requires
        0 <= i <= k < rows.len(),
        rows[k] is File,
        forall|j: int| i <= j < k ==> !((#[trigger] rows[j]) is File),
    ensures
        file_below(rows, from, i) == k,
    decreases k - i,
{
    if i < k {
        assert(!(rows[i] is File));
        law_headings_are_stepped_over(rows, from, i + 1, k);
    }
}

/// The next file up is the last one above, over any headings.
pub proof fn law_headings_are_stepped_over_upwards(rows: Seq<DupRow>, from: int, i: int, k: int)
    requires
        0 <= k < i <= rows.len(),
        rows[k] is File,
        forall|j: int| k < j < i ==> !((#[trigger] rows[j]) is File),
    ensures
        file_above(rows, from, i) == k,
    decreases i - k,
{
    if k < i - 1 {
        assert(!(rows[i - 1] is File));
        law_headings_are_stepped_over_upwards(rows, from, i - 1, k);
    }
}

/// Where a listing gets shorter the cursor stays where it was, or on the last row.
pub proof fn law_the_cursor_stays_on_a_row(cursor: usize, n: nat)
    ensures
        cursor < n ==> clamped(cursor, n) == cursor,
        0 < n <= cursor ==> clamped(cursor, n) == n - 1,
        n == 0 ==> clamped(cursor, n) == 0,
{
}

/// How the keys that move the cursor move it: by one row, by ten, or to either end, and never off the
/// listing. Nothing else changes.
pub proof fn law_how_the_cursor_moves(face: Face)
    requires
        0 < face.rows.len() <= usize::MAX,
        face.cursor < face.rows.len(),
    ensures
        ({
            let last = face.rows.len() - 1;
            &&& moved(face, Action::Up).cursor == (if face.cursor == 0 {
                0
            } else {
                face.cursor - 1
            })
            &&& moved(face, Action::Down).cursor == (if face.cursor == last {
                last
            } else {
                face.cursor + 1
            })
            &&& moved(face, Action::PageUp).cursor == (if face.cursor < 10 {
                0
            } else {
                face.cursor - 10
            })
            &&& moved(face, Action::PageDown).cursor == (if face.cursor + 10 > last {
                last
            } else {
                face.cursor + 10
            })
            &&& moved(face, Action::Top).cursor == 0
            &&& moved(face, Action::Bottom).cursor == last
        }),
        forall|action: Action|
            #![trigger moved(face, action)]
            moved(face, action) == (Face { cursor: moved(face, action).cursor, ..face }),
{
    reveal(moved);
}

/// Asking for the order that is shown turns it round, and asking for another shows that one the right
/// way up.
pub proof fn law_how_the_order_changes(face: Face, sort: Sort)
    ensures
        ({
            let now = sorted_by(face, sort);
            &&& now.sort == sort
            &&& now.reverse == (face.sort == sort && !face.reverse)
            &&& now.dir == face.dir
            &&& now.rows == listing(face.tree, face.dir, sort, now.reverse, face.apparent)
        }),
        apparent_toggled(face).apparent == !face.apparent,
        apparent_toggled(face).sort == face.sort,
        face.sort == Sort::Size ==> apparent_toggled(face).rows == listing(
            face.tree,
            face.dir,
            Sort::Size,
            face.reverse,
            !face.apparent,
        ),
{
}

/// A destination is taken where it is absolute, without the blanks around it, and nothing is staged
/// without one.
pub proof fn law_where_a_move_may_go(face: Face)
    requires
        face.prompt is Some,
    ensures
        ({
            let p = face.prompt->0;
            let dir = vstd::utf8::encode_utf8(trimmed(p.input));
            let now = face.submitted();
            &&& now.prompt is None
            &&& now.staged == face.staged
            &&& if trimmed(p.input).len() > 0 && dir.len() > 0 && dir[0] == 47 {
                face.read_only is None && p.targets.len() > 0 ==> now.pending
                    == (PendingNote::Stage { targets: p.targets, into: Some(dir) })
            } else {
                now.pending == face.pending && now.status is Some
            }
        }),
{
}

/// What is left of a text without the blanks around it begins and ends with none, and nothing else is
/// taken off.
pub proof fn law_only_blanks_are_trimmed(s: Seq<char>)
    ensures
        ({
            let t = trimmed(s);
            &&& t.len() > 0 ==> !is_space(t[0]) && !is_space(t[t.len() - 1])
            &&& exists|a: int, b: int|
                {
                    &&& 0 <= a <= b <= s.len()
                    &&& t == #[trigger] s.subrange(a, b)
                    &&& forall|k: int| 0 <= k < a ==> is_space(#[trigger] s[k])
                    &&& forall|k: int| b <= k < s.len() ==> is_space(#[trigger] s[k])
                }
        }),
{
    let a = text_start(s, 0);
    lemma_text_start(s, 0);
    let b = text_end(s, a, s.len() as int);
    lemma_text_end(s, a, s.len() as int);
    assert(trimmed(s) == s.subrange(a, b));
}

proof fn lemma_text_start(s: Seq<char>, i: int)
    requires
        0 <= i <= s.len(),
    ensures
        i <= text_start(s, i) <= s.len(),
        forall|k: int| i <= k < text_start(s, i) ==> is_space(#[trigger] s[k]),
        text_start(s, i) < s.len() ==> !is_space(s[text_start(s, i)]),
    decreases s.len() - i,
{
    if i < s.len() && is_space(s[i]) {
        lemma_text_start(s, i + 1);
    }
}

proof fn lemma_text_end(s: Seq<char>, from: int, n: int)
    requires
        0 <= from <= n <= s.len(),
    ensures
        from <= text_end(s, from, n) <= n,
        forall|k: int| text_end(s, from, n) <= k < n ==> is_space(#[trigger] s[k]),
        text_end(s, from, n) > from ==> !is_space(s[text_end(s, from, n) - 1]),
    decreases n - from,
{
    if n > from && is_space(s[n - 1]) {
        lemma_text_end(s, from, n - 1);
    }
}

/// Staging a deletion asks what each of the entries it applies to looks like now, by its path, and
/// stages nothing before that is known. A tree that cannot be changed asks nothing.
pub proof fn law_staging_asks_about_every_entry(was: Face, now: Face, ask: Ask)
    requires
        was.prompt is None,
        !was.show_help,
        !was.show_info,
        was.view == Screen::Browse,
        was.pending is Nothing,
        applied(was, Action::StageDelete, now, ask),
    ensures
        now.staged == was.staged,
        was.read_only is None && was.aims().len() > 0 ==> {
            &&& now.pending == (PendingNote::Stage { targets: was.aims(), into: None })
            &&& ask matches Ask::Identify(paths)
            &&& paths@.len() == was.aims().len()
            &&& forall|i: int|
                0 <= i < was.aims().len() ==> (#[trigger] paths@[i])@ == was.tree.spec_path(
                    was.aims()[i],
                )
        },
        was.read_only is Some ==> ask is Nothing && now.pending is Nothing && now.status
            == was.read_only,
{
    reveal(work_step);
}

/// What a confirmed plan commits is what was reviewed, without what it deletes anyway, and only where
/// it was confirmed.
pub proof fn law_what_a_confirmation_commits(was: Face, now: Face, ask: Ask)
    requires
        was.prompt is None,
        !was.show_help,
        !was.show_info,
        was.view == Screen::Confirm,
        applied(was, Action::Confirm, now, ask),
    ensures
        ask matches Ask::Commit(plan) && exists|ops: Seq<Op>|
            {
                &&& #[trigger] op_notes(ops) == was.plan.ops
                &&& op_notes(plan.ops@) == op_notes(normalized(ops))
                &&& plan.id@ == was.plan.id
                &&& plan.root@ == was.plan.root
                &&& plan.host@ == was.plan.host
            },
{
    reveal(confirm_step);
    let plan = ask->Commit_0;
    assert(is_tidy(plan, was.plan));
    let ops = choose|ops: Seq<Op>| #[trigger]
        op_notes(ops) == was.plan.ops && plan_note(plan) == (PlanNote {
            ops: op_notes(normalized(ops)),
            ..was.plan
        });
    assert(op_notes(ops) == was.plan.ops);
}

/// Once a commit is over, nothing of it stays staged or marked, what is shown is known to be of before,
/// and it is said how it ended; until then nothing of that happens.
pub proof fn law_a_commit_that_is_over_is_told(
    was: Face,
    events: Seq<ExecEvent>,
    outcome: Option<Result<Outcome, String>>,
)
    requires
        was.run is Some,
        was.run->0.summary is None,
    ensures
        ({
            let now = polled(was, events, outcome);
            &&& now.run is Some
            &&& (now.run->0.summary is Some) == (outcome is Some)
            &&& outcome is Some ==> now.stale && now.staged == Map::<NodeId, StagedNote>::empty()
                && now.marks == Set::<NodeId>::empty()
            &&& outcome is None ==> now.stale == was.stale && now.staged == was.staged && now.marks
                == was.marks
            &&& now.tree == was.tree
        }),
{
    lemma_heard_keeps(was.run->0, events, events.len() as int);
}

proof fn lemma_heard_keeps(run: RunNote, events: Seq<ExecEvent>, n: int)
    ensures
        heard(run, events, n).summary == run.summary,
    decreases n,
{
    if n > 0 {
        lemma_heard_keeps(run, events, n - 1);
    }
}

/// A plan is only committed where it holds something and nothing in it is an error.
pub proof fn law_what_may_be_committed(face: Face)
    requires
        face.view != Screen::Confirm,
    ensures
        (face.confirming().view == Screen::Confirm) == (face.plan.ops.len() > 0 && forall|i: int|
            0 <= i < face.findings.len() ==> (#[trigger] face.findings[i]).severity
                != Severity::Error),
{
    law_errors_are_counted(face.findings, face.findings.len() as int);
}

/// What is found wrong is found in the plan as it is staged, by the rules: with what the user put out
/// of reach, within the tree, and with the disk unless it is on another machine.
pub proof fn law_what_is_staged_is_checked(face: Face, world: World, findings: Seq<Note>)
    requires
        are_findings(face, world, findings),
    ensures
        exists|plan: Plan, opts: ValidateOptions|
            {
                &&& #[trigger] checks(face, plan, opts)
                &&& op_notes(plan.ops@) == face.plan.ops
                &&& plan.root@ == face.plan.root
                &&& !opts.allow_outside_root
                &&& path_views(opts.protected@) == face.protected
                &&& opts.headroom_percent == face.headroom_percent
                &&& opts.offline == (face.remote is Some)
                &&& forall|i: int|
                    0 <= i < plan.ops@.len() ==> #[trigger] blames(findings, Some(i as usize)) == (
                    takes_wrongly(plan, opts, i) || goes_wrongly(plan, opts, i) || !opts.offline
                        && is_hindered(plan.ops@[i], world.looks@[i]))
            },
{
    let (plan, opts) = choose|plan: Plan, opts: ValidateOptions| #[trigger]
        checks(face, plan, opts) && in_note_order(all_notes(plan, opts, world), findings);
    assert forall|i: int| 0 <= i < plan.ops@.len() implies #[trigger] blames(
        findings,
        Some(i as usize),
    ) == (takes_wrongly(plan, opts, i) || goes_wrongly(plan, opts, i) || !opts.offline
        && is_hindered(plan.ops@[i], world.looks@[i])) by {
        law_an_operation_is_refused_for_a_reason(plan, opts, world, findings, i);
    }
    assert(checks(face, plan, opts));
}

/// Marking marks what is not marked and unmarks what is, and touches nothing else; doing it twice does
/// nothing.
pub proof fn law_marking_twice_does_nothing(marks: Set<NodeId>, id: NodeId, other: NodeId)
    ensures
        toggled(marks, id).contains(id) == !marks.contains(id),
        other != id ==> toggled(marks, id).contains(other) == marks.contains(other),
        toggled(toggled(marks, id), id) == marks,
{
    assert(toggled(toggled(marks, id), id) =~= marks);
}

/// A mark is put on the row under the cursor, which then goes on to the next.
pub proof fn law_what_is_marked(face: Face)
    requires
        face.cursor < face.rows.len() <= usize::MAX,
    ensures
        face.mark_toggled().marks == toggled(face.marks, face.rows[face.cursor as int]),
        face.mark_toggled().cursor == (if face.cursor + 1 < face.rows.len() {
            face.cursor + 1
        } else {
            face.cursor as int
        }),
        face.mark_toggled().staged == face.staged,
{
}

/// A move is asked about for everything it applies to, and nothing is staged by asking.
pub proof fn law_a_move_is_asked_about_for_everything(face: Face)
    ensures
        face.aims().len() > 0 ==> (face.asking_where().prompt matches Some(p) && p.targets
            == face.aims() && p.input.len() == 0),
        face.aims().len() == 0 ==> face.asking_where() == face,
        face.asking_where().staged == face.staged,
{
}

/// Among copies, an action applies to each mark once, or without marks to the copy under the cursor.
pub proof fn law_which_copies_an_action_applies_to(face: Face, d: DupesNote)
    requires
        face.dupes == Some(d),
        face.marks.finite(),
    ensures
        face.marks.len() > 0 ==> face.dup_aims().to_set() == face.marks && is_ascending(
            face.dup_aims(),
        ),
        face.marks.len() == 0 && d.cursor < d.rows.len() ==> face.dup_aims() == (
        match d.rows[d.cursor as int] {
            DupRow::File(_, id) => seq![id],
            DupRow::Header(_) => Seq::empty(),
        }),
{
    lemma_ids_exist(face.marks);
}

/// What is spare is every copy of the file under the cursor but the first of them.
pub proof fn law_the_first_copy_is_kept(face: Face, d: DupesNote, g: usize, id: NodeId)
    requires
        face.dupes == Some(d),
        d.cursor < d.rows.len(),
        d.rows[d.cursor as int] == DupRow::File(g, id),
        g < d.groups.len(),
        d.groups[g as int].nodes.len() > 0,
    ensures
        face.spare_copies() == Some(d.groups[g as int].nodes.skip(1)),
{
    law_which_copies_are_spare(d.groups[g as int].nodes);
}

/// Taking an operation out of the plan takes what it came from off the stage, and nothing else.
pub proof fn law_what_leaves_the_plan(was: Face, now: Face, ask: Ask, id: NodeId)
    requires
        was.prompt is None,
        !was.show_help,
        !was.show_info,
        was.view == Screen::Plan,
        was.plan_cursor < was.plan_nodes.len(),
        applied(was, Action::Unstage, now, ask),
    ensures
        now.staged.contains_key(id) == (was.staged.contains_key(id) && id
            != was.plan_nodes[was.plan_cursor as int]),
        now.staged.contains_key(id) ==> now.staged[id] == was.staged[id],
{
    reveal(plan_step);
}

/// A commit that runs here is paused when that is asked for, once, and one that runs elsewhere is not.
pub proof fn law_when_a_commit_is_paused(was: Face, now: Face, ask: Ask, action: Action)
    requires
        was.prompt is None,
        !was.show_help,
        !was.show_info,
        was.view == Screen::Running,
        applied(was, action, now, ask),
    ensures
        ask is Pause == ((action == Action::TogglePlan || action == Action::Input('p')) && (
        was.run matches Some(run) && run.summary is None && !run.remote)),
        ask is Pause ==> (now.run matches Some(run) && run.paused),
        !(ask is Commit),
{
    reveal(running_step);
}

} // verus!
