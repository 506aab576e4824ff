//! What is refused, told off the plan and the disk, and that nothing else is.

use vstd::prelude::*;

use crate::order::{comes_first, is_order, lemma_order_complete};
use crate::path::{components, parent_of};
use crate::plan::refused::blames;
use crate::plan::validate::{
    all_notes, arrival, asked, covered_note, deleted_around, demand_on, disk_notes,
    doomed_note, earlier_source, earlier_target, in_note_order, is_protected, itself_note, note_ranks,
    op_notes, outside_note, protected_note, room_note, room_notes, root_note, same_target,
    shape_notes, shared_note, source_notes, space_on, target_notes, twice_note, within_note,
    IdentLook, Need, Note, OpLook, Severity, Space, ValidateOptions, World,
};
use crate::plan::{Conflict, EntryKind, Ident, Op, Plan};

verus! {

/// Whether two paths lead to one place.
pub open spec fn is_one_place(a: Seq<u8>, b: Seq<u8>) -> bool {
    components(a) == components(b)
}

/// Whether a path leads to somewhere below another.
pub open spec fn is_below(path: Seq<u8>, dir: Seq<u8>) -> bool {
    components(dir).is_prefix_of(components(path)) && components(dir) != components(path)
}

/// The path an operation takes something from.
pub open spec fn source_of(op: Op) -> Seq<u8> {
    match op {
        Op::Delete { path, .. } => path@,
        Op::Move { src, .. } => src@,
    }
}

/// What an operation was staged on.
pub open spec fn staged_of(op: Op) -> Ident {
    match op {
        Op::Delete { ident, .. } => ident,
        Op::Move { ident, .. } => ident,
    }
}

/// Whether an operation deletes a directory that a path lies in.
pub open spec fn sweeps(op: Op, path: Seq<u8>) -> bool {
    op matches Op::Delete { path: dir, ident, .. } && ident.kind == EntryKind::Dir && is_below(
        path,
        dir@,
    )
}

/// Whether an operation takes what it must not: what is protected, what another takes already, the
/// root, what is outside it, or a thing to be moved out of what the plan deletes.
pub open spec fn takes_wrongly(plan: Plan, opts: ValidateOptions, i: int) -> bool {
    let src = source_of(plan.ops@[i]);
    ||| exists|j: int| 0 <= j < i && is_one_place(source_of(#[trigger] plan.ops@[j]), src)
    ||| exists|k: int|
        0 <= k < opts.protected@.len() && is_one_place(#[trigger] opts.protected@[k]@, src)
    ||| is_one_place(src, plan.root@)
    ||| !opts.allow_outside_root && !components(plan.root@).is_prefix_of(components(src))
    ||| plan.ops@[i] is Move && exists|j: int|
        0 <= j < plan.ops@.len() && sweeps(#[trigger] plan.ops@[j], src)
}

/// Whether a move goes where it must not: where it comes from or below that, to what is protected, to
/// where an earlier one goes, or into what the plan deletes.
pub open spec fn goes_wrongly(plan: Plan, opts: ValidateOptions, i: int) -> bool {
    plan.ops@[i] matches Op::Move { src, dst, .. } && {
        ||| is_one_place(dst@, src@)
        ||| is_below(dst@, src@)
        ||| exists|k: int|
            0 <= k < opts.protected@.len() && is_one_place(#[trigger] opts.protected@[k]@, dst@)
        ||| exists|j: int|
            0 <= j < i && (#[trigger] plan.ops@[j] matches Op::Move { dst: other, .. }
                && is_one_place(other@, dst@))
        ||| exists|j: int| 0 <= j < plan.ops@.len() && sweeps(#[trigger] plan.ops@[j], dst@)
    }
}

/// Whether what is on the disk stands in the way: the source is not what was staged or cannot be taken
/// out of its directory, or there is something at the destination that must not be replaced, or no
/// directory to put anything in.
pub open spec fn is_hindered(op: Op, look: OpLook) -> bool {
    ||| !(look.source matches IdentLook::Found(now) && now == staged_of(op))
    ||| parent_of(source_of(op)) is Some && !look.parent_writable
    ||| (op matches Op::Move { dst, on_conflict, .. } && if look.dst_exists && on_conflict
        == Conflict::Fail {
        true
    } else {
        parent_of(dst@) is Some && !(look.dst_parent matches Some(dir) && dir.kind == EntryKind::Dir
            && look.dst_parent_writable)
    })
}

proof fn lemma_either(a: Seq<Note>, b: Seq<Note>, op: Option<usize>)
    ensures
        blames(a + b, op) == (blames(a, op) || blames(b, op)),
{
    let all = a + b;
    if blames(all, op) {
        let k = choose|k: int|
            0 <= k < all.len() && (#[trigger] all[k]).severity == Severity::Error && all[k].op == op;
        if k < a.len() {
            assert(a[k] == all[k]);
        } else {
            assert(b[k - a.len()] == all[k]);
        }
    }
    if blames(a, op) {
        let k = choose|k: int|
            0 <= k < a.len() && (#[trigger] a[k]).severity == Severity::Error && a[k].op == op;
        assert(all[k] == a[k]);
    }
    if blames(b, op) {
        let k = choose|k: int|
            0 <= k < b.len() && (#[trigger] b[k]).severity == Severity::Error && b[k].op == op;
        assert(all[a.len() + k] == b[k]);
    }
}

proof fn lemma_earlier_source(ops: Seq<Op>, i: int, n: int)
    ensures
        earlier_source(ops, i, n) is Some == exists|j: int|
            0 <= j < n && is_one_place(source_of(#[trigger] ops[j]), source_of(ops[i])),
    decreases n,
{
    if n > 0 {
        lemma_earlier_source(ops, i, n - 1);
        assert(ops[n - 1].from() == source_of(ops[n - 1]));
        assert(ops[i].from() == source_of(ops[i]));
        if exists|j: int|
            0 <= j < n && is_one_place(source_of(#[trigger] ops[j]), source_of(ops[i])) {
            let j = choose|j: int|
                0 <= j < n && is_one_place(source_of(#[trigger] ops[j]), source_of(ops[i]));
            if j < n - 1 {
                assert(is_one_place(source_of(ops[j]), source_of(ops[i])));
            }
        }
    }
}

proof fn lemma_earlier_target(ops: Seq<Op>, i: int, n: int)
    requires
        ops[i] is Move,
    ensures
        earlier_target(ops, i, n) is Some == exists|j: int|
            0 <= j < n && (#[trigger] ops[j] matches Op::Move { dst: other, .. } && is_one_place(
                other@,
                ops[i]->dst@,
            )),
    decreases n,
{
    if n > 0 {
        lemma_earlier_target(ops, i, n - 1);
        let last = ops[n - 1];
        assert(same_target(last, ops[i]) == (last is Move && is_one_place(
            last->dst@,
            ops[i]->dst@,
        )));
        if exists|j: int|
            0 <= j < n && (#[trigger] ops[j] matches Op::Move { dst: other, .. } && is_one_place(
                other@,
                ops[i]->dst@,
            )) {
            let j = choose|j: int|
                0 <= j < n && (#[trigger] ops[j] matches Op::Move { dst: other, .. }
                    && is_one_place(other@, ops[i]->dst@));
            if j < n - 1 {
                assert(ops[j] is Move);
            }
        }
        if same_target(last, ops[i]) {
            assert(ops[n - 1] is Move);
        }
    }
}

proof fn lemma_swept(ops: Seq<Op>, path: Seq<u8>, n: int)
    requires
        0 <= n <= ops.len(),
    ensures
        deleted_around(ops, path, n) is Some == exists|j: int|
            n <= j < ops.len() && sweeps(#[trigger] ops[j], path),
    decreases ops.len() - n,
{
    if n < ops.len() {
        lemma_swept(ops, path, n + 1);
        let op = ops[n];
        assert((op.deletes_dir() && crate::path::inside(path, op.from())) == sweeps(op, path));
        if exists|j: int| n <= j < ops.len() && sweeps(#[trigger] ops[j], path) {
            let j = choose|j: int| n <= j < ops.len() && sweeps(#[trigger] ops[j], path);
            if j > n {
                assert(sweeps(ops[j], path));
            }
        }
    }
}

proof fn lemma_protected(protected: Seq<Vec<u8>>, path: Seq<u8>)
    ensures
        is_protected(protected, path) == exists|k: int|
            0 <= k < protected.len() && is_one_place(#[trigger] protected[k]@, path),
{
    if is_protected(protected, path) {
        let k = choose|k: int|
            0 <= k < protected.len() && crate::path::same_path(#[trigger] protected[k]@, path);
        assert(is_one_place(protected[k]@, path));
    }
    if exists|k: int| 0 <= k < protected.len() && is_one_place(#[trigger] protected[k]@, path) {
        let k = choose|k: int|
            0 <= k < protected.len() && is_one_place(#[trigger] protected[k]@, path);
        assert(crate::path::same_path(protected[k]@, path));
    }
}

proof fn lemma_source(plan: Plan, opts: ValidateOptions, i: int, op: Option<usize>)
    requires
        0 <= i < plan.ops@.len(),
    ensures
        blames(source_notes(plan, opts, i), op) == (op == Some(i as usize) && takes_wrongly(
            plan,
            opts,
            i,
        )),
{
    let ops = plan.ops@;
    let src = source_of(ops[i]);
    assert(ops[i].from() == src);
    let a = twice_note(ops, i);
    let b = protected_note(opts.protected@, src, i);
    let c = root_note(plan.root@, src, i);
    let d = outside_note(plan.root@, opts.allow_outside_root, src, i);
    let e = covered_note(ops, i);
    lemma_either(a, b, op);
    lemma_either(a + b, c, op);
    lemma_either(a + b + c, d, op);
    lemma_either(a + b + c + d, e, op);
    lemma_earlier_source(ops, i, i);
    lemma_protected(opts.protected@, src);
    lemma_swept(ops, src, 0);
    lemma_one(a, op);
    lemma_one(b, op);
    lemma_one(c, op);
    lemma_one(d, op);
    lemma_one(e, op);
}

/// A note by itself blames what it is about, if it is an error.
proof fn lemma_one(list: Seq<Note>, op: Option<usize>)
    requires
        list.len() <= 1,
    ensures
        blames(list, op) == (list.len() == 1 && list[0].severity == Severity::Error && list[0].op
            == op),
{
}

proof fn lemma_target(plan: Plan, opts: ValidateOptions, i: int, op: Option<usize>)
    requires
        0 <= i < plan.ops@.len(),
    ensures
        blames(target_notes(plan, opts, i), op) == (op == Some(i as usize) && goes_wrongly(
            plan,
            opts,
            i,
        )),
{
    let ops = plan.ops@;
    if ops[i] is Move {
        let (src, dst) = (ops[i]->src@, ops[i]->dst@);
        let a = itself_note(dst, src, i);
        let b = within_note(dst, src, i);
        let c = protected_note(opts.protected@, dst, i);
        let d = shared_note(ops, i);
        let e = doomed_note(ops, dst, i);
        lemma_either(a, b, op);
        lemma_either(a + b, c, op);
        lemma_either(a + b + c, d, op);
        lemma_either(a + b + c + d, e, op);
        lemma_earlier_target(ops, i, i);
        lemma_protected(opts.protected@, dst);
        lemma_swept(ops, dst, 0);
        lemma_one(a, op);
        lemma_one(b, op);
        lemma_one(c, op);
        lemma_one(d, op);
        lemma_one(e, op);
    }
}

proof fn lemma_shape(plan: Plan, opts: ValidateOptions, n: int, op: Option<usize>)
    requires
        0 <= n <= plan.ops@.len(),
    ensures
        blames(shape_notes(plan, opts, n), op) == (op matches Some(i) && i < n && (takes_wrongly(
            plan,
            opts,
            i as int,
        ) || goes_wrongly(plan, opts, i as int))),
    decreases n,
{
    assert(plan.ops@.len() == plan.ops.len());
    if n > 0 {
        lemma_shape(plan, opts, n - 1, op);
        let before = shape_notes(plan, opts, n - 1);
        let a = source_notes(plan, opts, n - 1);
        let b = target_notes(plan, opts, n - 1);
        lemma_either(before, a, op);
        lemma_either(before + a, b, op);
        lemma_source(plan, opts, n - 1, op);
        lemma_target(plan, opts, n - 1, op);
    }
}

proof fn lemma_arrival(op: Op, look: OpLook, at: Option<usize>, who: Option<usize>)
    requires
        op is Move,
    ensures
        blames(arrival(op->dst@, op->Move_ident, op->on_conflict, look, at).0, who) == (who == at
            && if look.dst_exists && op->on_conflict == Conflict::Fail {
            true
        } else {
            parent_of(op->dst@) is Some && !(look.dst_parent matches Some(dir) && dir.kind
                == EntryKind::Dir && look.dst_parent_writable)
        }),
{
    let dst = op->dst@;
    let said = arrival(dst, op->Move_ident, op->on_conflict, look, at).0;
    if look.dst_exists && op->on_conflict == Conflict::Fail {
        lemma_one(said, who);
    } else {
        let there = crate::plan::validate::when(
            look.dst_exists,
            crate::plan::validate::caution(at, crate::text::shown(dst) + " exists; will be skipped"@),
        );
        lemma_one(there, who);
        if parent_of(dst) is Some {
            let rest = said.skip(there.len() as int);
            assert(said =~= there + rest);
            lemma_either(there, rest, who);
            if look.dst_parent is None || look.dst_parent->0.kind != EntryKind::Dir {
                lemma_one(rest, who);
            } else {
                let locked = crate::plan::validate::when(
                    !look.dst_parent_writable,
                    crate::plan::validate::bad(
                        at,
                        "no write permission on "@ + crate::text::shown(parent_of(dst)->0),
                    ),
                );
                let more = rest.skip(locked.len() as int);
                assert(rest =~= locked + more);
                lemma_either(locked, more, who);
                lemma_one(locked, who);
                lemma_one(more, who);
            }
        }
    }
}

proof fn lemma_op(op: Op, look: OpLook, at: Option<usize>, who: Option<usize>)
    ensures
        blames(op_notes(op, look, at).0, who) == (who == at && is_hindered(op, look)),
{
    let said = op_notes(op, look, at).0;
    assert(op.staged() == staged_of(op));
    assert(op.from() == source_of(op));
    if look.source matches IdentLook::Found(now) && now == staged_of(op) {
        let src = source_of(op);
        let locked = crate::plan::validate::when(
            parent_of(src) is Some && !look.parent_writable,
            crate::plan::validate::bad(
                at,
                "no write permission on "@ + crate::text::shown(parent_of(src)->0),
            ),
        );
        lemma_one(locked, who);
        if op is Move {
            let rest = arrival(op->dst@, op->Move_ident, op->on_conflict, look, at).0;
            lemma_either(locked, rest, who);
            lemma_arrival(op, look, at, who);
        }
    } else {
        lemma_one(said, who);
    }
}

proof fn lemma_disk(plan: Plan, looks: Seq<OpLook>, n: int, op: Option<usize>)
    requires
        0 <= n <= plan.ops@.len(),
    ensures
        blames(disk_notes(plan.ops@, looks, n).0, op) == (op matches Some(i) && i < n
            && is_hindered(plan.ops@[i as int], looks[i as int])),
    decreases n,
{
    assert(plan.ops@.len() == plan.ops.len());
    if n > 0 {
        lemma_disk(plan, looks, n - 1, op);
        let before = disk_notes(plan.ops@, looks, n - 1).0;
        let more = op_notes(plan.ops@[n - 1], looks[n - 1], Some((n - 1) as usize)).0;
        lemma_either(before, more, op);
        lemma_op(plan.ops@[n - 1], looks[n - 1], Some((n - 1) as usize), op);
    }
}

/// The device that an operation needs room on, if it needs any: the one it copies to. A move within a
/// filesystem needs none, and neither does one that something else stands in the way of.
pub open spec fn device_filled(op: Op, look: OpLook) -> Option<u64> {
    match op {
        Op::Delete { .. } => None,
        Op::Move { dst, ident, on_conflict, .. } => if (look.source matches IdentLook::Found(now)
            && now == ident) && !(look.dst_exists && on_conflict == Conflict::Fail) && parent_of(
            dst@,
        ) is Some && (look.dst_parent matches Some(dir) && dir.kind == EntryKind::Dir && dir.dev
            != ident.dev) {
            Some(look.dst_parent->0.dev)
        } else {
            None
        },
    }
}

/// What the first `n` operations need on a device, together.
pub open spec fn needed_on(ops: Seq<Op>, looks: Seq<OpLook>, dev: u64, n: int) -> nat
    decreases n,
{
    if n <= 0 {
        0
    } else {
        needed_on(ops, looks, dev, n - 1) + if device_filled(ops[n - 1], looks[n - 1]) == Some(dev) {
            ops[n - 1]->Move_est_bytes as nat
        } else {
            0nat
        }
    }
}

/// Whether one of the first `n` operations needs room on a device.
pub open spec fn is_filled(ops: Seq<Op>, looks: Seq<OpLook>, dev: u64, n: int) -> bool {
    exists|i: int| 0 <= i < n && device_filled(#[trigger] ops[i], looks[i]) == Some(dev)
}

pub open spec fn at_most_all(n: nat) -> nat {
    if n > u64::MAX {
        u64::MAX as nat
    } else {
        n
    }
}

proof fn lemma_demand(list: Seq<Need>, dev: u64, k: int)
    requires
        0 <= k <= list.len(),
    ensures
        k <= demand_on(list, dev, k) <= list.len(),
        demand_on(list, dev, k) < list.len() ==> list[demand_on(list, dev, k)].dev == dev,
        forall|j: int| k <= j < demand_on(list, dev, k) ==> (#[trigger] list[j]).dev != dev,
    decreases list.len() - k,
{
    if k < list.len() && list[k].dev != dev {
        lemma_demand(list, dev, k + 1);
    }
}

/// What is asked of a device is what all operations that need room there need together, as far as it
/// can be counted. Every device that something is needed on is asked once, and no other.
pub proof fn law_what_is_asked_of_a_device(ops: Seq<Op>, looks: Seq<OpLook>, n: int)
    requires
        0 <= n <= ops.len(),
    ensures
        ({
            let list = disk_notes(ops, looks, n).1;
            &&& forall|k: int|
                0 <= k < list.len() ==> is_filled(ops, looks, (#[trigger] list[k]).dev, n)
                    && list[k].needed == at_most_all(needed_on(ops, looks, list[k].dev, n))
            &&& forall|dev: u64| #[trigger]
                is_filled(ops, looks, dev, n) ==> exists|k: int|
                    0 <= k < list.len() && (#[trigger] list[k]).dev == dev
            &&& forall|j: int, k: int|
                0 <= j < k < list.len() ==> (#[trigger] list[j]).dev != (#[trigger] list[k]).dev
        }),
    decreases n,
{
    if n > 0 {
        law_what_is_asked_of_a_device(ops, looks, n - 1);
        let was = disk_notes(ops, looks, n - 1).1;
        let list = disk_notes(ops, looks, n).1;
        let (op, look) = (ops[n - 1], looks[n - 1]);
        let (more, room) = op_notes(op, look, Some((n - 1) as usize));
        assert(op.staged() == staged_of(op));
        assert((match room {
            Some((dev, _)) => Some(dev),
            None => None,
        }) == device_filled(op, look));
        assert forall|dev: u64| #[trigger] is_filled(ops, looks, dev, n) == (is_filled(
            ops,
            looks,
            dev,
            n - 1,
        ) || device_filled(op, look) == Some(dev)) by {
            if is_filled(ops, looks, dev, n) {
                let i = choose|i: int|
                    0 <= i < n && device_filled(#[trigger] ops[i], looks[i]) == Some(dev);
                if i < n - 1 {
                    assert(device_filled(ops[i], looks[i]) == Some(dev));
                }
            }
            if is_filled(ops, looks, dev, n - 1) {
                let i = choose|i: int|
                    0 <= i < n - 1 && device_filled(#[trigger] ops[i], looks[i]) == Some(dev);
                assert(device_filled(ops[i], looks[i]) == Some(dev));
            }
            if device_filled(op, look) == Some(dev) {
                assert(device_filled(ops[n - 1], looks[n - 1]) == Some(dev));
            }
        }
        match room {
            None => {
                assert(list == was);
                assert forall|k: int| 0 <= k < list.len() implies is_filled(
                    ops,
                    looks,
                    (#[trigger] list[k]).dev,
                    n,
                ) && list[k].needed == at_most_all(needed_on(ops, looks, list[k].dev, n)) by {
                    assert(is_filled(ops, looks, was[k].dev, n - 1));
                }
                assert forall|dev: u64| #[trigger] is_filled(ops, looks, dev, n) implies exists|
                    k: int,
                |
                    0 <= k < list.len() && (#[trigger] list[k]).dev == dev by {
                    assert(is_filled(ops, looks, dev, n - 1));
                }
            },
            Some((dev, dir)) => {
                let at = demand_on(was, dev, 0);
                lemma_demand(was, dev, 0);
                assert(list == asked(was, dev, dir, op.bytes()));
                if at == was.len() {
                    if is_filled(ops, looks, dev, n - 1) {
                        let k = choose|k: int| 0 <= k < was.len() && (#[trigger] was[k]).dev == dev;
                        assert(was[k].dev != dev);
                    }
                    lemma_unneeded(ops, looks, dev, n - 1);
                }
                assert forall|k: int| 0 <= k < list.len() implies is_filled(
                    ops,
                    looks,
                    (#[trigger] list[k]).dev,
                    n,
                ) && list[k].needed == at_most_all(needed_on(ops, looks, list[k].dev, n)) by {
                    if k < was.len() {
                        assert(is_filled(ops, looks, was[k].dev, n - 1));
                        assert(list[k].dev == was[k].dev);
                        if k != at && was[k].dev == dev {
                            assert(at < was.len());
                            assert(k > at);
                            assert(was[at].dev != was[k].dev);
                        }
                    }
                    assert(is_filled(ops, looks, dev, n));
                }
                assert forall|d: u64| #[trigger] is_filled(ops, looks, d, n) implies exists|k: int|
                    0 <= k < list.len() && (#[trigger] list[k]).dev == d by {
                    if d == dev {
                        assert(list[at].dev == d);
                    } else {
                        assert(is_filled(ops, looks, d, n - 1));
                        let k = choose|k: int| 0 <= k < was.len() && (#[trigger] was[k]).dev == d;
                        assert(list[k].dev == d);
                    }
                }
                assert forall|j: int, k: int| 0 <= j < k < list.len() implies (
                #[trigger] list[j]).dev != (#[trigger] list[k]).dev by {
                    assert(list[j].dev == was[j].dev);
                    if k < was.len() {
                        assert(list[k].dev == was[k].dev);
                    }
                }
            },
        }
    }
}

proof fn lemma_unneeded(ops: Seq<Op>, looks: Seq<OpLook>, dev: u64, n: int)
    requires
        !is_filled(ops, looks, dev, n),
    ensures
        needed_on(ops, looks, dev, n) == 0,
    decreases n,
{
    if n > 0 {
        assert(device_filled(ops[n - 1], looks[n - 1]) != Some(dev));
        if is_filled(ops, looks, dev, n - 1) {
            let i = choose|i: int|
                0 <= i < n - 1 && device_filled(#[trigger] ops[i], looks[i]) == Some(dev);
            assert(device_filled(ops[i], looks[i]) == Some(dev));
        }
        lemma_unneeded(ops, looks, dev, n - 1);
    }
}

/// Whether what is known of a device, first of all, is that there is no room on it for what the plan
/// needs there and what is to be left free.
pub open spec fn is_overfull(plan: Plan, world: World, k: int) -> bool {
    let space = world.spaces@[k];
    let n = plan.ops@.len() as int;
    &&& 0 <= k < world.spaces@.len()
    &&& forall|j: int| 0 <= j < k ==> (#[trigger] world.spaces@[j]).dev != space.dev
    &&& is_filled(plan.ops@, world.looks@, space.dev, n)
    &&& at_most_all(needed_on(plan.ops@, world.looks@, space.dev, n)) + space.reserve
        > space.available
}

proof fn lemma_space(spaces: Seq<Space>, dev: u64, k: int)
    requires
        0 <= k <= spaces.len(),
    ensures
        k <= space_on(spaces, dev, k) <= spaces.len(),
        space_on(spaces, dev, k) < spaces.len() ==> spaces[space_on(spaces, dev, k)].dev == dev,
        forall|j: int| k <= j < space_on(spaces, dev, k) ==> (#[trigger] spaces[j]).dev != dev,
    decreases spaces.len() - k,
{
    if k < spaces.len() && spaces[k].dev != dev {
        lemma_space(spaces, dev, k + 1);
    }
}

proof fn lemma_rooms(list: Seq<Need>, spaces: Seq<Space>, percent: u64, n: int, op: Option<usize>)
    requires
        0 <= n <= list.len(),
    ensures
        blames(room_notes(list, spaces, percent, n), op) == (op is None && exists|k: int|
            0 <= k < n && is_short(#[trigger] list[k], spaces)),
    decreases n,
{
    if n > 0 {
        lemma_rooms(list, spaces, percent, n - 1, op);
        let before = room_notes(list, spaces, percent, n - 1);
        let more = room_note(list[n - 1], spaces, percent);
        lemma_either(before, more, op);
        lemma_one(more, op);
        if exists|k: int| 0 <= k < n && is_short(#[trigger] list[k], spaces) {
            let k = choose|k: int| 0 <= k < n && is_short(#[trigger] list[k], spaces);
            if k < n - 1 {
                assert(is_short(list[k], spaces));
            }
        }
    }
}

spec fn is_short(need: Need, spaces: Seq<Space>) -> bool {
    let k = space_on(spaces, need.dev, 0);
    k < spaces.len() && need.needed + spaces[k].reserve > spaces[k].available
}

proof fn lemma_overfull(plan: Plan, world: World)
    ensures
        ({
            let list = disk_notes(plan.ops@, world.looks@, plan.ops@.len() as int).1;
            (exists|k: int| 0 <= k < list.len() && is_short(#[trigger] list[k], world.spaces@))
                == exists|k: int| #[trigger] is_overfull(plan, world, k)
        }),
{
    let n = plan.ops@.len() as int;
    let (ops, looks, spaces) = (plan.ops@, world.looks@, world.spaces@);
    let list = disk_notes(ops, looks, n).1;
    law_what_is_asked_of_a_device(ops, looks, n);
    if exists|k: int| 0 <= k < list.len() && is_short(#[trigger] list[k], spaces) {
        let k = choose|k: int| 0 <= k < list.len() && is_short(#[trigger] list[k], spaces);
        let s = space_on(spaces, list[k].dev, 0);
        lemma_space(spaces, list[k].dev, 0);
        assert(is_overfull(plan, world, s));
    }
    if exists|k: int| #[trigger] is_overfull(plan, world, k) {
        let s = choose|k: int| #[trigger] is_overfull(plan, world, k);
        let dev = spaces[s].dev;
        let k = choose|k: int| 0 <= k < list.len() && (#[trigger] list[k]).dev == dev;
        lemma_space(spaces, dev, 0);
        let f = space_on(spaces, dev, 0);
        assert(f == s) by {
            if f < s {
                assert(spaces[f].dev != dev);
            }
            if s < f {
                assert(spaces[s].dev != dev);
            }
        }
        assert(is_short(list[k], spaces));
    }
}

proof fn lemma_same_blame(list: Seq<Note>, found: Seq<Note>, op: Option<usize>)
    requires
        in_note_order(list, found),
    ensures
        blames(found, op) == blames(list, op),
{
    let p = choose|p: Seq<int>| #[trigger]
        is_order(note_ranks(list), p) && found == p.map_values(|k: int| list[k]);
    if blames(list, op) {
        let k = choose|k: int|
            0 <= k < list.len() && (#[trigger] list[k]).severity == Severity::Error && list[k].op
                == op;
        lemma_order_complete(note_ranks(list), p, k);
        let j = choose|j: int| 0 <= j < p.len() && p[j] == k;
        assert(found[j] == list[k]);
    }
    if blames(found, op) {
        let j = choose|j: int|
            0 <= j < found.len() && (#[trigger] found[j]).severity == Severity::Error && found[j].op
                == op;
        assert(list[p[j]] == found[j]);
    }
}

proof fn lemma_all(plan: Plan, opts: ValidateOptions, world: World, found: Seq<Note>, op: Option<usize>)
    requires
        in_note_order(all_notes(plan, opts, world), found),
    ensures
        blames(found, op) == match op {
            Some(i) => i < plan.ops@.len() && (takes_wrongly(plan, opts, i as int) || goes_wrongly(
                plan,
                opts,
                i as int,
            ) || !opts.offline && is_hindered(plan.ops@[i as int], world.looks@[i as int])),
            None => !opts.offline && (plan.host@ != world.host@ || exists|k: int|
                #[trigger] is_overfull(plan, world, k)),
        },
{
    let n = plan.ops@.len() as int;
    let all = all_notes(plan, opts, world);
    lemma_same_blame(all, found, op);
    let (seen, list) = disk_notes(plan.ops@, world.looks@, n);
    let shape = shape_notes(plan, opts, n);
    let lead = all.take(
        all.len() - shape.len() - if opts.offline {
            0
        } else {
            seen.len() + room_notes(
                list,
                world.spaces@,
                opts.headroom_percent,
                list.len() as int,
            ).len()
        },
    );
    lemma_shape(plan, opts, n, op);
    lemma_disk(plan, world.looks@, n, op);
    lemma_overfull(plan, world);
    let rooms = room_notes(list, world.spaces@, opts.headroom_percent, list.len() as int);
    lemma_rooms(list, world.spaces@, opts.headroom_percent, list.len() as int, op);
    lemma_lead(plan, opts, world, lead, op);
    if opts.offline {
        assert(all =~= lead + shape);
        lemma_either(lead, shape, op);
    } else {
        assert(all =~= lead + shape + seen + rooms);
        lemma_either(lead, shape, op);
        lemma_either(lead + shape, seen, op);
        lemma_either(lead + shape + seen, rooms, op);
    }
}

proof fn lemma_lead(
    plan: Plan,
    opts: ValidateOptions,
    world: World,
    lead: Seq<Note>,
    op: Option<usize>,
)
    requires
        ({
            let n = plan.ops@.len() as int;
            let all = all_notes(plan, opts, world);
            let (seen, list) = disk_notes(plan.ops@, world.looks@, n);
            lead == all.take(
                all.len() - shape_notes(plan, opts, n).len() - if opts.offline {
                    0
                } else {
                    seen.len() + room_notes(
                        list,
                        world.spaces@,
                        opts.headroom_percent,
                        list.len() as int,
                    ).len()
                },
            )
        }),
    ensures
        blames(lead, op) == (op is None && !opts.offline && plan.host@ != world.host@),
{
    let all = all_notes(plan, opts, world);
    let a: int = if plan.ops@.len() == 0 { 1 } else { 0 };
    let b: int = if !opts.offline && plan.host@ != world.host@ { 1 } else { 0 };
    assert(lead.len() == a + b);
    if a == 1 {
        assert(lead[0] == all[0]);
        assert(lead[0].severity == Severity::Warning);
    }
    if b == 1 {
        assert(lead[a] == all[a]);
        assert(lead[a].severity == Severity::Error && lead[a].op is None);
    }
}

/// An operation is refused exactly where something is wrong with it: with what it takes, with where it
/// goes, or with what is on the disk, which is not looked at where that was asked for.
pub proof fn law_an_operation_is_refused_for_a_reason(
    plan: Plan,
    opts: ValidateOptions,
    world: World,
    found: Seq<Note>,
    i: int,
)
    requires
        in_note_order(all_notes(plan, opts, world), found),
        0 <= i < plan.ops@.len(),
    ensures
        blames(found, Some(i as usize)) == (takes_wrongly(plan, opts, i) || goes_wrongly(
            plan,
            opts,
            i,
        ) || !opts.offline && is_hindered(plan.ops@[i], world.looks@[i])),
{
    assert(plan.ops@.len() == plan.ops.len());
    lemma_all(plan, opts, world, found, Some(i as usize));
}

/// A plan as a whole is refused exactly where it comes from another machine, or where a filesystem that
/// it copies to has no room for all that goes there and what is to be left free.
pub proof fn law_a_plan_is_refused_for_a_reason(
    plan: Plan,
    opts: ValidateOptions,
    world: World,
    found: Seq<Note>,
)
    requires
        in_note_order(all_notes(plan, opts, world), found),
    ensures
        blames(found, None) == (!opts.offline && (plan.host@ != world.host@ || exists|k: int|
            #[trigger] is_overfull(plan, world, k))),
{
    lemma_all(plan, opts, world, found, None);
}

/// Nothing is blamed but operations of the plan, and the plan.
pub proof fn law_only_operations_are_blamed(
    plan: Plan,
    opts: ValidateOptions,
    world: World,
    found: Seq<Note>,
    i: usize,
)
    requires
        in_note_order(all_notes(plan, opts, world), found),
        i >= plan.ops@.len(),
    ensures
        !blames(found, Some(i)),
{
    lemma_all(plan, opts, world, found, Some(i));
}

/// Moves that together need more room than there is are refused, though each of them would fit.
pub proof fn law_moves_are_added_up(
    plan: Plan,
    opts: ValidateOptions,
    world: World,
    found: Seq<Note>,
    i: int,
    j: int,
    s: int,
)
    requires
        in_note_order(all_notes(plan, opts, world), found),
        !opts.offline,
        0 <= i < j < plan.ops@.len(),
        0 <= s < world.spaces@.len(),
        forall|k: int| 0 <= k < s ==> (#[trigger] world.spaces@[k]).dev != world.spaces@[s].dev,
        device_filled(plan.ops@[i], world.looks@[i]) == Some(world.spaces@[s].dev),
        device_filled(plan.ops@[j], world.looks@[j]) == Some(world.spaces@[s].dev),
        plan.ops@[i]->Move_est_bytes + plan.ops@[j]->Move_est_bytes <= u64::MAX,
        plan.ops@[i]->Move_est_bytes + plan.ops@[j]->Move_est_bytes + world.spaces@[s].reserve
            > world.spaces@[s].available,
    ensures
        blames(found, None),
{
    let dev = world.spaces@[s].dev;
    let n = plan.ops@.len() as int;
    lemma_needs_grow(plan.ops@, world.looks@, dev, 0, i);
    lemma_needs_grow(plan.ops@, world.looks@, dev, i + 1, j);
    lemma_needs_grow(plan.ops@, world.looks@, dev, j + 1, n);
    assert(device_filled(plan.ops@[i], world.looks@[i]) == Some(dev));
    assert(is_overfull(plan, world, s));
    law_a_plan_is_refused_for_a_reason(plan, opts, world, found);
}

proof fn lemma_needs_grow(ops: Seq<Op>, looks: Seq<OpLook>, dev: u64, a: int, b: int)
    requires
        0 <= a <= b,
    ensures
        needed_on(ops, looks, dev, a) <= needed_on(ops, looks, dev, b),
    decreases b - a,
{
    if a < b {
        lemma_needs_grow(ops, looks, dev, a, b - 1);
    }
}

/// Whether a warning about an operation is among some notes.
pub open spec fn warns(list: Seq<Note>, op: Option<usize>) -> bool {
    exists|k: int|
        0 <= k < list.len() && (#[trigger] list[k]).severity == Severity::Warning && list[k].op == op
}

/// It is said of a move that it will be copied, or passed over, and of nothing else.
pub proof fn law_what_a_move_comes_to_is_said(op: Op, look: OpLook, at: Option<usize>)
    ensures
        warns(op_notes(op, look, at).0, at) == (device_filled(op, look) is Some || {
            &&& look.source matches IdentLook::Found(now) && now == staged_of(op)
            &&& op matches Op::Move { dst, on_conflict, .. }
            &&& look.dst_exists
            &&& on_conflict != Conflict::Fail
        }),
{
    let said = op_notes(op, look, at).0;
    assert(op.staged() == staged_of(op));
    assert(op.from() == source_of(op));
    if look.source matches IdentLook::Found(now) && now == staged_of(op) {
        let src = source_of(op);
        let locked = crate::plan::validate::when(
            parent_of(src) is Some && !look.parent_writable,
            crate::plan::validate::bad(
                at,
                "no write permission on "@ + crate::text::shown(parent_of(src)->0),
            ),
        );
        if op is Move {
            let rest = arrival(op->dst@, op->Move_ident, op->on_conflict, look, at).0;
            assert(said == locked + rest);
            if look.dst_exists && op->on_conflict != Conflict::Fail {
                assert(rest[0].severity == Severity::Warning);
                assert(said[locked.len() as int] == rest[0]);
            } else if device_filled(op, look) is Some {
                assert(rest[rest.len() - 1].severity == Severity::Warning);
                assert(said[said.len() - 1] == rest[rest.len() - 1]);
            } else {
                assert forall|k: int| 0 <= k < said.len() implies (#[trigger] said[k]).severity
                    == Severity::Error by {
                    if k >= locked.len() {
                        assert(said[k] == rest[k - locked.len()]);
                    }
                }
            }
        }
    }
}

/// It is said of a deletion that the plan deletes a directory around it anyway, and of no other.
pub proof fn law_a_redundant_deletion_is_said_to_be(ops: Seq<Op>, i: int)
    requires
        ops[i] is Delete,
    ensures
        warns(covered_note(ops, i), Some(i as usize)) == exists|j: int|
            0 <= j < ops.len() && sweeps(#[trigger] ops[j], source_of(ops[i])),
{
    lemma_swept(ops, source_of(ops[i]), 0);
    assert(ops[i].from() == source_of(ops[i]));
    if deleted_around(ops, source_of(ops[i]), 0) is Some {
        assert(covered_note(ops, i)[0].severity == Severity::Warning);
    }
}

/// Errors are told before warnings; among each, what is about the plan comes first and then one
/// operation after the other.
pub proof fn law_the_order_of_findings(list: Seq<Note>, found: Seq<Note>, i: int, j: int)
    requires
        in_note_order(list, found),
        0 <= i < j < found.len(),
    ensures
        found.len() == list.len(),
        found[j].severity == Severity::Error ==> found[i].severity == Severity::Error,
        found[i].severity == found[j].severity ==> match (found[i].op, found[j].op) {
            (None, _) => true,
            (Some(a), None) => a >= u64::MAX,
            (Some(a), Some(b)) => a < u64::MAX && b < u64::MAX ==> a <= b,
        },
{
    let p = choose|p: Seq<int>| #[trigger]
        is_order(note_ranks(list), p) && found == p.map_values(|k: int| list[k]);
    assert(comes_first(note_ranks(list), p[i], p[j]));
    assert(note_ranks(list)[p[i]] == crate::plan::validate::note_rank(list[p[i]]));
    assert(note_ranks(list)[p[j]] == crate::plan::validate::note_rank(list[p[j]]));
}

} // verus!
