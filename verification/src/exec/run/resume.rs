//! What a commit of a plan leaves on a disk that nothing else writes to, however often it was
//! interrupted.

use vstd::prelude::*;

use super::whole::{
    clean_freed, follows, goes_well, is_clean_run, is_resumable,
    law_a_resumed_commit_ends_as_a_clean_one, Effects, End, Happening, Moment,
};
use super::{law_a_run_leaves_nothing_out, Run};
use crate::exec::disk::{
    is_alike, is_copy, is_elsewhere_same, is_like, is_touched, is_under, tree, Disk,
};
use crate::exec::journal::Event;
use crate::exec::moves::resume::{
    is_carried_out as is_move_carried_out, is_moved, is_part_moved,
    law_a_move_can_be_taken_up_again, space_moved, way_by, way_to, ways_of,
};
use crate::exec::remove::resume::{
    is_carried_out as is_deletion_carried_out, is_deleted, is_part_deleted,
    law_a_deletion_can_be_taken_up_again, space_at, way_of,
};
use crate::exec::{ended, run_ranks};
use crate::order::{ints, is_order, lemma_order_distinct};
use crate::plan::{Ident, Op, Plan};
use crate::stat::Stat;

verus! {

/// What the operations of a plan do to a disk. `crosses` says which of the moves go from one
/// filesystem to another.
pub open spec fn effects_of(ops: Seq<Op>, crosses: Set<usize>) -> Effects<Disk> {
    Effects {
        clean: |op: usize, s: Disk, t: Disk|
            match ops[op as int] {
                Op::Delete { .. } => is_deleted(ops[op as int], s, t),
                Op::Move { .. } => is_moved(ops[op as int], op, crosses.contains(op), s, t),
            },
        frees: |op: usize, s: Disk|
            match ops[op as int] {
                Op::Delete { .. } => space_at(s, way_of(ops[op as int])),
                Op::Move { .. } => space_moved(ops[op as int], crosses.contains(op), s),
            },
        mid: |op: usize, s: Disk, t: Disk, record: Option<Ident>, freed: nat|
            match ops[op as int] {
                Op::Delete { .. } => is_part_deleted(ops[op as int], s, t, freed),
                Op::Move { .. } => is_part_moved(
                    ops[op as int],
                    op,
                    crosses.contains(op),
                    s,
                    t,
                    record,
                    freed,
                ),
            },
        carries: |
            op: usize,
            strict: bool,
            record: Option<Ident>,
            a: Disk,
            end: End,
            b: Disk,
            on_record: Option<Ident>,
        |
            match ops[op as int] {
                Op::Delete { .. } => is_deletion_carried_out(ops[op as int], strict, a, end, b)
                    && on_record == record,
                Op::Move { .. } => is_move_carried_out(
                    ops[op as int],
                    op,
                    crosses.contains(op),
                    strict,
                    record,
                    a,
                    end,
                    b,
                    on_record,
                ),
            },
    }
}

/// Every operation, deletion or move, can be taken up again wherever it was left.
pub proof fn law_every_operation_can_be_taken_up_again(
    ops: Seq<Op>,
    crosses: Set<usize>,
    op: usize,
)
    ensures
        is_resumable(effects_of(ops, crosses), op),
{
    let fx = effects_of(ops, crosses);
    assert forall|
        s: Disk,
        t: Disk,
        record: Option<Ident>,
        freed: nat,
        strict: bool,
        end: End,
        after: Disk,
        on_record: Option<Ident>,
    |
        #![trigger (fx.mid)(op, s, t, record, freed), (fx.carries)(op, strict, record, t, end, after, on_record)]
        (fx.mid)(op, s, t, record, freed) && (fx.carries)(
            op,
            strict,
            record,
            t,
            end,
            after,
            on_record,
        ) && (strict ==> t == s && record is None && freed == 0) implies match end {
        End::Done(more) => (fx.clean)(op, s, after) && (fx.mid)(
            op,
            s,
            after,
            on_record,
            freed + more as nat,
        ),
        End::Paused(more) => (fx.mid)(op, s, after, on_record, freed + more as nat),
        End::Failed(_) => false,
        End::Cut => exists|sum: nat| #[trigger]
            (fx.mid)(op, s, after, on_record, sum) && sum >= freed,
    } by {
        match ops[op as int] {
            Op::Delete { .. } => {
                let sum = law_a_deletion_can_be_taken_up_again(
                    ops[op as int],
                    strict,
                    s,
                    t,
                    freed,
                    end,
                    after,
                );
                assert((fx.mid)(op, s, after, on_record, sum));
            },
            Op::Move { .. } => {
                let sum = law_a_move_can_be_taken_up_again(
                    ops[op as int],
                    op,
                    crosses.contains(op),
                    strict,
                    record,
                    s,
                    t,
                    freed,
                    end,
                    after,
                    on_record,
                );
                assert((fx.mid)(op, s, after, on_record, sum));
            },
        }
    }
}

/// What a way leads to is in the tree there.
proof fn lemma_in_tree(d: Disk, w: Seq<Seq<u8>>, p: Seq<Seq<u8>>)
    requires
        is_under(p, w),
    ensures
        d.held.contains_key(p) == tree(d, w).contains_key(p.skip(w.len() as int)),
        d.held.contains_key(p) ==> d.held[p] == tree(d, w)[p.skip(w.len() as int)],
{
    assert(w + p.skip(w.len() as int) =~= p);
}

/// Whether a way leads to alike entries in two trees, or to nothing in either.
spec fn is_like_at(
    a: Map<Seq<Seq<u8>>, Stat>,
    b: Map<Seq<Seq<u8>>, Stat>,
    p: Seq<Seq<u8>>,
) -> bool {
    &&& a.contains_key(p) == b.contains_key(p)
    &&& a.contains_key(p) ==> is_like(a[p], b[p])
}

proof fn lemma_like(a: Map<Seq<Seq<u8>>, Stat>, b: Map<Seq<Seq<u8>>, Stat>)
    ensures
        is_copy(a, b) <==> forall|p: Seq<Seq<u8>>| is_like_at(a, b, p),
{
    if is_copy(a, b) {
        assert forall|p: Seq<Seq<u8>>| is_like_at(a, b, p) by {
            assert(a.dom().contains(p) == b.dom().contains(p));
        }
    }
    if forall|p: Seq<Seq<u8>>| is_like_at(a, b, p) {
        assert(a.dom() =~= b.dom()) by {
            assert forall|p: Seq<Seq<u8>>| a.dom().contains(p) == b.dom().contains(p) by {
                assert(is_like_at(a, b, p));
            }
        }
        assert forall|r: Seq<Seq<u8>>| #[trigger] b.contains_key(r) implies is_like(
            a[r],
            b[r],
        ) by {
            assert(is_like_at(a, b, r));
        }
    }
}

/// Alike disks hold alike trees.
proof fn lemma_trees_alike(a: Disk, b: Disk, w: Seq<Seq<u8>>)
    requires
        is_alike(a, b),
    ensures
        is_copy(tree(a, w), tree(b, w)),
{
    lemma_like(a.held, b.held);
    lemma_like(tree(a, w), tree(b, w));
    assert forall|r: Seq<Seq<u8>>| is_like_at(tree(a, w), tree(b, w), r) by {
        assert(is_like_at(a.held, b.held, w + r));
    }
}

/// What an operation leaves alone is as it was.
proof fn lemma_untouched(a: Disk, b: Disk, ways: Set<Seq<Seq<u8>>>, p: Seq<Seq<u8>>)
    requires
        is_elsewhere_same(a, b, ways),
        !is_touched(p, ways),
    ensures
        is_like_at(a.held, b.held, p),
{
    reveal(is_elsewhere_same);
    assert(b.held.contains_key(p) == b.held.contains_key(p));
}

proof fn lemma_deletion_is_definite(op: Op, s: Disk, t: Disk, s2: Disk, t2: Disk)
    requires
        is_alike(s, s2),
        is_deleted(op, s, t),
        is_deleted(op, s2, t2),
    ensures
        is_alike(t, t2),
{
    let w = way_of(op);
    let ways = set![w];
    lemma_like(s.held, s2.held);
    lemma_like(t.held, t2.held);
    assert forall|p: Seq<Seq<u8>>| is_like_at(t.held, t2.held, p) by {
        if is_under(p, w) {
            lemma_in_tree(t, w, p);
            lemma_in_tree(t2, w, p);
        } else {
            lemma_untouched(s, t, ways, p);
            lemma_untouched(s2, t2, ways, p);
            assert(is_like_at(s.held, s2.held, p));
        }
    }
}

proof fn lemma_move_is_definite(
    op: Op,
    index: usize,
    crosses: bool,
    s: Disk,
    t: Disk,
    s2: Disk,
    t2: Disk,
)
    requires
        is_alike(s, s2),
        is_moved(op, index, crosses, s, t),
        is_moved(op, index, crosses, s2, t2),
    ensures
        is_alike(t, t2),
{
    let w = way_of(op);
    let v = way_to(op);
    let u = way_by(op, index);
    let ways = ways_of(op, index);
    lemma_like(s.held, s2.held);
    lemma_like(t.held, t2.held);
    lemma_trees_alike(s, s2, w);
    lemma_trees_alike(s, s2, u);
    lemma_like(tree(s, w), tree(s2, w));
    lemma_like(tree(s, w), tree(t, v));
    lemma_like(tree(s2, w), tree(t2, v));
    lemma_like(tree(s, u), tree(s2, u));
    assert forall|p: Seq<Seq<u8>>| is_like_at(t.held, t2.held, p) by {
        if is_under(p, w) {
            lemma_in_tree(t, w, p);
            lemma_in_tree(t2, w, p);
        } else if is_under(p, v) {
            lemma_in_tree(t, v, p);
            lemma_in_tree(t2, v, p);
            let r = p.skip(v.len() as int);
            assert(is_like_at(tree(s, w), tree(s2, w), r));
            assert(is_like_at(tree(s, w), tree(t, v), r));
            assert(is_like_at(tree(s2, w), tree(t2, v), r));
        } else if is_under(p, u) {
            lemma_in_tree(t, u, p);
            lemma_in_tree(t2, u, p);
            let r = p.skip(u.len() as int);
            assert(is_like_at(tree(s, u), tree(s2, u), r));
        } else {
            lemma_untouched(s, t, ways, p);
            lemma_untouched(s2, t2, ways, p);
            assert(is_like_at(s.held, s2.held, p));
        }
    }
}

/// There is one end to a plan: two runs of it that are never interrupted leave the same, where they
/// start from the same.
pub proof fn law_clean_runs_leave_the_same(
    ops: Seq<Op>,
    crosses: Set<usize>,
    order: Seq<usize>,
    a: Seq<Disk>,
    b: Seq<Disk>,
)
    requires
        is_clean_run(effects_of(ops, crosses), order, a),
        is_clean_run(effects_of(ops, crosses), order, b),
        a.len() == b.len(),
        is_alike(a[0], b[0]),
    ensures
        is_alike(a.last(), b.last()),
    decreases a.len(),
{
    if a.len() > 1 {
        let (x, y) = (a.drop_last(), b.drop_last());
        let fx = effects_of(ops, crosses);
        assert(is_clean_run(fx, order, x)) by {
            assert forall|j: int| 0 <= j < x.len() - 1 implies (fx.clean)(
                #[trigger] order[j],
                x[j],
                x[j + 1],
            ) by {
                assert((fx.clean)(order[j], a[j], a[j + 1]));
            }
        }
        assert(is_clean_run(fx, order, y)) by {
            assert forall|j: int| 0 <= j < y.len() - 1 implies (fx.clean)(
                #[trigger] order[j],
                y[j],
                y[j + 1],
            ) by {
                assert((fx.clean)(order[j], b[j], b[j + 1]));
            }
        }
        law_clean_runs_leave_the_same(ops, crosses, order, x, y);
        let j = a.len() - 2;
        let op = order[j];
        assert((fx.clean)(op, a[j], a[j + 1]));
        assert((fx.clean)(op, b[j], b[j + 1]));
        match ops[op as int] {
            Op::Delete { .. } => {
                lemma_deletion_is_definite(ops[op as int], a[j], a[j + 1], b[j], b[j + 1]);
            },
            Op::Move { .. } => {
                lemma_move_is_definite(
                    ops[op as int],
                    op,
                    crosses.contains(op),
                    a[j],
                    a[j + 1],
                    b[j],
                    b[j + 1],
                );
            },
        }
    }
}

/// An interrupted commit is resumable, not ambiguous: once the last of its runs has been through
/// all operations, wherever the ones before it were cut off or paused, the disk is one that a run
/// of the plan leaves which is never interrupted, and holds what any such run would have left.
/// Nothing has failed, every operation is done, and no more was reclaimed than such a run reclaims.
///
/// That is said of a plan which can be carried out on that disk.
pub proof fn law_an_interrupted_commit_ends_as_a_clean_one(
    plan: Plan,
    crosses: Set<usize>,
    run: Run,
    moments: Seq<Moment<Disk>>,
    happenings: Seq<Happening>,
) -> (disks: Seq<Disk>)
    requires
        run.wf(),
        !run.dry_run,
        run.pos == run.order@.len(),
        is_order(run_ranks(plan.ops@), ints(run.order@)),
        forall|i: int| 0 <= i < run.order@.len() ==> #[trigger] run.order@[i] < plan.ops@.len(),
        moments.len() == happenings.len() + 1,
        moments[0].log == Seq::<Event>::empty(),
        goes_well(effects_of(plan.ops@, crosses), run.order@, moments[0].disk),
        forall|i: int|
            0 <= i < happenings.len() ==> follows(
                effects_of(plan.ops@, crosses),
                run.order@,
                moments[i],
                #[trigger] happenings[i],
                moments[i + 1],
            ),
        moments.last().log == run.log@,
    ensures
        is_clean_run(effects_of(plan.ops@, crosses), run.order@, disks),
        disks.len() == run.order@.len() + 1,
        disks[0] == moments[0].disk,
        disks.last() == moments.last().disk,
        forall|clean: Seq<Disk>| #[trigger]
            is_clean_run(effects_of(plan.ops@, crosses), run.order@, clean) && clean.len()
                == run.order@.len() + 1 && clean[0] == moments[0].disk ==> is_alike(
                clean.last(),
                moments.last().disk,
            ),
        run.totals.failed == 0,
        run.totals.skipped == 0,
        run.totals.done == plan.ops@.len(),
        run.totals.freed <= clean_freed(
            effects_of(plan.ops@, crosses),
            run.order@,
            disks,
            run.order@.len() as int,
        ),
{
    let fx = effects_of(plan.ops@, crosses);
    lemma_order_distinct(run_ranks(plan.ops@), ints(run.order@));
    assert(run.order@.len() == plan.ops@.len()) by {
        assert(ints(run.order@).len() == run_ranks(plan.ops@).len());
    }
    assert forall|op: usize| #[trigger] run.order@.contains(op) implies is_resumable(fx, op)
        && ended(moments.last().log).contains(op) by {
        law_every_operation_can_be_taken_up_again(plan.ops@, crosses, op);
        law_a_run_leaves_nothing_out(plan, run, op);
    }
    let disks = law_a_resumed_commit_ends_as_a_clean_one(fx, run.order@, moments, happenings);
    assert forall|clean: Seq<Disk>| #[trigger]
        is_clean_run(fx, run.order@, clean) && clean.len() == run.order@.len() + 1 && clean[0]
            == moments[0].disk implies is_alike(clean.last(), moments.last().disk) by {
        law_clean_runs_leave_the_same(plan.ops@, crosses, run.order@, clean, disks);
    }
    disks
}

} // verus!
