//! What is never let through.
//!
//! Each law is about `found`, which is what a check of a plan comes to: everything that is wrong,
//! in order. One error is enough to block a commit.

use vstd::prelude::*;

use crate::order::{is_order, lemma_order_complete};
use crate::path::{inside, same_path, starts_with};
use crate::plan::validate::{
    all_notes, arrival, covered_note, deleted_around, disk_notes, doomed_note, earlier_target,
    in_note_order, is_protected, itself_note, note_ranks, op_notes, outside_note, protected_note,
    room_note, room_notes, root_note, same_target, shape_notes, shared_note, source_notes, space_on,
    target_notes, twice_note, within_note, IdentLook, Need, Note, Severity, Space,
    ValidateOptions, World,
};
use crate::plan::{Conflict, Op, Plan};

verus! {

/// Whether an error about an operation is among what was found.
pub open spec fn blames(found: Seq<Note>, op: Option<usize>) -> bool {
    exists|k: int|
        0 <= k < found.len() && (#[trigger] found[k]).severity == Severity::Error && found[k].op
            == op
}

proof fn lemma_among(before: Seq<Note>, list: Seq<Note>, after: Seq<Note>, op: Option<usize>)
    requires
        blames(list, op),
    ensures
        blames(before + list + after, op),
{
    let k = choose|k: int|
        0 <= k < list.len() && (#[trigger] list[k]).severity == Severity::Error && list[k].op == op;
    assert((before + list + after)[before.len() + k] == list[k]);
}

proof fn lemma_noted(note: Note)
    requires
        note.severity == Severity::Error,
    ensures
        blames(seq![note], note.op),
{
    assert(seq![note][0] == note);
}

/// An error about an operation in one of five parts is one in the whole.
proof fn lemma_parts(
    before: Seq<Note>,
    a: Seq<Note>,
    b: Seq<Note>,
    c: Seq<Note>,
    d: Seq<Note>,
    e: Seq<Note>,
    after: Seq<Note>,
    op: Option<usize>,
)
    requires
        blames(a, op) || blames(b, op) || blames(c, op) || blames(d, op) || blames(e, op),
    ensures
        blames(before + (a + b + c + d + e) + after, op),
{
    let all = before + (a + b + c + d + e) + after;
    if blames(a, op) {
        lemma_among(before, a, b + c + d + e + after, op);
        assert(before + a + (b + c + d + e + after) =~= all);
    } else if blames(b, op) {
        lemma_among(before + a, b, c + d + e + after, op);
        assert(before + a + b + (c + d + e + after) =~= all);
    } else if blames(c, op) {
        lemma_among(before + a + b, c, d + e + after, op);
        assert(before + a + b + c + (d + e + after) =~= all);
    } else if blames(d, op) {
        lemma_among(before + a + b + c, d, e + after, op);
        assert(before + a + b + c + d + (e + after) =~= all);
    } else {
        lemma_among(before + a + b + c + d, e, after, op);
        assert(before + a + b + c + d + e + after =~= all);
    }
}

/// Nothing is lost in putting what was found in order.
proof fn lemma_kept(list: Seq<Note>, found: Seq<Note>, op: Option<usize>)
    requires
        in_note_order(list, found),
        blames(list, op),
    ensures
        blames(found, op),
{
    let p = choose|p: Seq<int>| #[trigger]
        is_order(note_ranks(list), p) && found == p.map_values(|k: int| list[k]);
    let k = choose|k: int|
        0 <= k < list.len() && (#[trigger] list[k]).severity == Severity::Error && list[k].op == op;
    lemma_order_complete(note_ranks(list), p, k);
    let j = choose|j: int| 0 <= j < p.len() && p[j] == k;
    assert(found[j] == list[k]);
}

proof fn lemma_shape(plan: Plan, opts: ValidateOptions, i: int, n: int, op: Option<usize>)
    requires
        0 <= i < n,
        blames(source_notes(plan, opts, i) + target_notes(plan, opts, i), op),
    ensures
        blames(shape_notes(plan, opts, n), op),
    decreases n,
{
    let before = shape_notes(plan, opts, n - 1);
    let both = source_notes(plan, opts, n - 1) + target_notes(plan, opts, n - 1);
    let none = Seq::<Note>::empty();
    if i == n - 1 {
        lemma_among(before, both, none, op);
        assert(before + both + none =~= shape_notes(plan, opts, n));
    } else {
        lemma_shape(plan, opts, i, n - 1, op);
        lemma_among(none, before, both, op);
        assert(none + before + both =~= shape_notes(plan, opts, n));
    }
}

/// What is wrong with the shape of a plan is found.
proof fn lemma_shape_found(
    plan: Plan,
    opts: ValidateOptions,
    world: World,
    found: Seq<Note>,
    i: int,
)
    requires
        0 <= i < plan.ops@.len(),
        in_note_order(all_notes(plan, opts, world), found),
        blames(
            source_notes(plan, opts, i) + target_notes(plan, opts, i),
            Some(i as usize),
        ),
    ensures
        blames(found, Some(i as usize)),
{
    let op = Some(i as usize);
    let n = plan.ops@.len() as int;
    let all = all_notes(plan, opts, world);
    let shape = shape_notes(plan, opts, n);
    lemma_shape(plan, opts, i, n, op);
    let (seen, list) = disk_notes(plan.ops@, world.looks@, n);
    let rest = if opts.offline {
        Seq::empty()
    } else {
        seen + room_notes(list, world.spaces@, opts.headroom_percent, list.len() as int)
    };
    let lead = all.take(all.len() - shape.len() - rest.len());
    lemma_among(lead, shape, rest, op);
    assert(lead + shape + rest =~= all);
    lemma_kept(all, found, op);
}

/// An operation on a protected path, on the scan root itself, or outside the scanned tree is
/// refused, the last unless that was allowed.
pub proof fn law_forbidden_sources_are_refused(
    plan: Plan,
    opts: ValidateOptions,
    world: World,
    found: Seq<Note>,
    i: int,
)
    requires
        0 <= i < plan.ops@.len(),
        in_note_order(all_notes(plan, opts, world), found),
        ({
            let src = plan.ops@[i].from();
            ||| is_protected(opts.protected@, src)
            ||| same_path(src, plan.root@)
            ||| !opts.allow_outside_root && !starts_with(src, plan.root@)
        }),
    ensures
        blames(found, Some(i as usize)),
{
    let op = Some(i as usize);
    let src = plan.ops@[i].from();
    let a = twice_note(plan.ops@, i);
    let b = protected_note(opts.protected@, src, i);
    let c = root_note(plan.root@, src, i);
    let d = outside_note(plan.root@, opts.allow_outside_root, src, i);
    let e = covered_note(plan.ops@, i);
    let to = target_notes(plan, opts, i);
    if is_protected(opts.protected@, src) {
        lemma_noted(b[0]);
    } else if same_path(src, plan.root@) {
        lemma_noted(c[0]);
    } else {
        lemma_noted(d[0]);
    }
    lemma_parts(Seq::empty(), a, b, c, d, e, to, op);
    assert(Seq::<Note>::empty() + (a + b + c + d + e) + to =~= source_notes(plan, opts, i) + to);
    lemma_shape_found(plan, opts, world, found, i);
}

proof fn lemma_earlier(ops: Seq<Op>, i: int, j: int, n: int)
    requires
        0 <= j < n,
        same_target(ops[j], ops[i]),
    ensures
        earlier_target(ops, i, n) is Some,
    decreases n,
{
    if j < n - 1 {
        lemma_earlier(ops, i, j, n - 1);
    }
}

proof fn lemma_around(ops: Seq<Op>, path: Seq<u8>, j: int, n: int)
    requires
        0 <= n <= j < ops.len(),
        ops[j].deletes_dir(),
        inside(path, ops[j].from()),
    ensures
        deleted_around(ops, path, n) is Some,
    decreases j - n,
{
    if n < j {
        lemma_around(ops, path, j, n + 1);
    }
}

/// A move to where it comes from, into itself, to a protected path, to where an earlier operation
/// writes, or into a directory that the plan deletes is refused.
pub proof fn law_bad_destinations_are_refused(
    plan: Plan,
    opts: ValidateOptions,
    world: World,
    found: Seq<Note>,
    i: int,
)
    requires
        0 <= i < plan.ops@.len(),
        in_note_order(all_notes(plan, opts, world), found),
        plan.ops@[i] is Move,
        ({
            let (src, dst) = (plan.ops@[i].from(), plan.ops@[i].to()->0);
            ||| same_path(dst, src)
            ||| inside(dst, src)
            ||| is_protected(opts.protected@, dst)
            ||| exists|j: int| 0 <= j < i && same_target(#[trigger] plan.ops@[j], plan.ops@[i])
            ||| exists|j: int|
                0 <= j < plan.ops@.len() && (#[trigger] plan.ops@[j]).deletes_dir() && inside(
                    dst,
                    plan.ops@[j].from(),
                )
        }),
    ensures
        blames(found, Some(i as usize)),
{
    let op = Some(i as usize);
    let ops = plan.ops@;
    let (src, dst) = (ops[i].from(), ops[i].to()->0);
    let a = itself_note(dst, src, i);
    let b = within_note(dst, src, i);
    let c = protected_note(opts.protected@, dst, i);
    let d = shared_note(ops, i);
    let e = doomed_note(ops, dst, i);
    let from = source_notes(plan, opts, i);
    if same_path(dst, src) {
        lemma_noted(a[0]);
    } else if inside(dst, src) {
        lemma_noted(b[0]);
    } else if is_protected(opts.protected@, dst) {
        lemma_noted(c[0]);
    } else if exists|j: int| 0 <= j < i && same_target(#[trigger] ops[j], ops[i]) {
        let j = choose|j: int| 0 <= j < i && same_target(#[trigger] ops[j], ops[i]);
        lemma_earlier(ops, i, j, i);
        lemma_noted(d[0]);
    } else {
        let j = choose|j: int|
            0 <= j < ops.len() && (#[trigger] ops[j]).deletes_dir() && inside(dst, ops[j].from());
        lemma_around(ops, dst, j, 0);
        lemma_noted(e[0]);
    }
    lemma_parts(from, a, b, c, d, e, Seq::empty(), op);
    assert(from + (a + b + c + d + e) + Seq::<Note>::empty() =~= from + target_notes(
        plan,
        opts,
        i,
    ));
    lemma_shape_found(plan, opts, world, found, i);
}

proof fn lemma_disk(ops: Seq<Op>, world: World, i: int, n: int, op: Option<usize>)
    requires
        0 <= i < n,
        blames(op_notes(ops[i], world.looks@[i], Some(i as usize)).0, op),
    ensures
        blames(disk_notes(ops, world.looks@, n).0, op),
    decreases n,
{
    let before = disk_notes(ops, world.looks@, n - 1).0;
    let more = op_notes(ops[n - 1], world.looks@[n - 1], Some((n - 1) as usize)).0;
    let none = Seq::<Note>::empty();
    if i == n - 1 {
        lemma_among(before, more, none, op);
        assert(before + more + none =~= before + more);
    } else {
        lemma_disk(ops, world, i, n - 1, op);
        lemma_among(none, before, more, op);
        assert(none + before + more =~= before + more);
    }
}

/// What is wrong on disk is found.
proof fn lemma_disk_found(
    plan: Plan,
    opts: ValidateOptions,
    world: World,
    found: Seq<Note>,
    i: int,
)
    requires
        !opts.offline,
        0 <= i < plan.ops@.len(),
        in_note_order(all_notes(plan, opts, world), found),
        blames(
            op_notes(plan.ops@[i], world.looks@[i], Some(i as usize)).0,
            Some(i as usize),
        ),
    ensures
        blames(found, Some(i as usize)),
{
    let op = Some(i as usize);
    let n = plan.ops@.len() as int;
    let all = all_notes(plan, opts, world);
    lemma_disk(plan.ops@, world, i, n, op);
    let (seen, list) = disk_notes(plan.ops@, world.looks@, n);
    let rest = room_notes(list, world.spaces@, opts.headroom_percent, list.len() as int);
    let lead = all.take(all.len() - seen.len() - rest.len());
    lemma_among(lead, seen, rest, op);
    assert(lead + seen + rest =~= all);
    lemma_kept(all, found, op);
}

/// An operation whose source is not exactly what was staged is refused: gone, out of reach, or
/// changed in any part of its identity.
pub proof fn law_drift_is_refused(
    plan: Plan,
    opts: ValidateOptions,
    world: World,
    found: Seq<Note>,
    i: int,
)
    requires
        !opts.offline,
        0 <= i < plan.ops@.len(),
        in_note_order(all_notes(plan, opts, world), found),
        !(world.looks@[i].source matches IdentLook::Found(now) && now == plan.ops@[i].staged()),
    ensures
        blames(found, Some(i as usize)),
{
    let said = op_notes(plan.ops@[i], world.looks@[i], Some(i as usize)).0;
    lemma_noted(said[0]);
    assert(said =~= seq![said[0]]);
    lemma_disk_found(plan, opts, world, found, i);
}

/// A move that must not replace anything is refused while its destination is taken.
pub proof fn law_taken_destinations_are_refused(
    plan: Plan,
    opts: ValidateOptions,
    world: World,
    found: Seq<Note>,
    i: int,
)
    requires
        !opts.offline,
        0 <= i < plan.ops@.len(),
        in_note_order(all_notes(plan, opts, world), found),
        plan.ops@[i] matches Op::Move { on_conflict, .. } && on_conflict == Conflict::Fail,
        world.looks@[i].dst_exists,
    ensures
        blames(found, Some(i as usize)),
{
    let op = plan.ops@[i];
    let look = world.looks@[i];
    let at = Some(i as usize);
    if look.source matches IdentLook::Found(now) && now == op.staged() {
        let rest = arrival(op.to()->0, op->Move_ident, Conflict::Fail, look, at).0;
        let said = op_notes(op, look, at).0;
        lemma_noted(rest[0]);
        assert(rest =~= seq![rest[0]]);
        let lead = said.take(said.len() - rest.len());
        lemma_among(lead, rest, Seq::empty(), at);
        assert(lead + rest + Seq::<Note>::empty() =~= said);
        lemma_disk_found(plan, opts, world, found, i);
    } else {
        law_drift_is_refused(plan, opts, world, found, i);
    }
}

proof fn lemma_room(list: Seq<Need>, spaces: Seq<Space>, percent: u64, k: int, n: int)
    requires
        0 <= k < n,
        blames(room_note(list[k], spaces, percent), None),
    ensures
        blames(room_notes(list, spaces, percent, n), None),
    decreases n,
{
    let before = room_notes(list, spaces, percent, n - 1);
    let more = room_note(list[n - 1], spaces, percent);
    let none = Seq::<Note>::empty();
    if k == n - 1 {
        lemma_among(before, more, none, None);
        assert(before + more + none =~= before + more);
    } else {
        lemma_room(list, spaces, percent, k, n - 1);
        lemma_among(none, before, more, None);
        assert(none + before + more =~= before + more);
    }
}

/// A plan that asks more of a filesystem than there is room for, with what is to be left free set
/// aside, is refused.
pub proof fn law_full_filesystems_are_refused(
    plan: Plan,
    opts: ValidateOptions,
    world: World,
    found: Seq<Note>,
    k: int,
)
    requires
        !opts.offline,
        in_note_order(all_notes(plan, opts, world), found),
        ({
            let asked = disk_notes(plan.ops@, world.looks@, plan.ops@.len() as int).1;
            let s = space_on(world.spaces@, asked[k].dev, 0);
            &&& 0 <= k < asked.len()
            &&& s < world.spaces@.len()
            &&& asked[k].needed + world.spaces@[s].reserve > world.spaces@[s].available
        }),
    ensures
        blames(found, None),
{
    let n = plan.ops@.len() as int;
    let all = all_notes(plan, opts, world);
    let (seen, list) = disk_notes(plan.ops@, world.looks@, n);
    lemma_noted(room_note(list[k], world.spaces@, opts.headroom_percent)[0]);
    let len = list.len() as int;
    lemma_room(list, world.spaces@, opts.headroom_percent, k, len);
    let rest = room_notes(list, world.spaces@, opts.headroom_percent, len);
    let lead = all.take(all.len() - rest.len());
    lemma_among(lead, rest, Seq::empty(), None);
    assert(lead + rest + Seq::<Note>::empty() =~= all);
    lemma_kept(all, found, None);
}

/// A plan that was made on another machine is refused: inodes mean nothing elsewhere.
pub proof fn law_other_hosts_are_refused(
    plan: Plan,
    opts: ValidateOptions,
    world: World,
    found: Seq<Note>,
)
    requires
        !opts.offline,
        plan.host@ != world.host@,
        in_note_order(all_notes(plan, opts, world), found),
    ensures
        blames(found, None),
{
    let all = all_notes(plan, opts, world);
    let at: int = if plan.ops@.len() == 0 {
        1
    } else {
        0
    };
    assert(all[at].severity == Severity::Error && all[at].op is None);
    lemma_kept(all, found, None);
}

} // verus!
