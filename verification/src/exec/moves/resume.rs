//! What a move does to a disk that nothing else writes to, from its first step to wherever it stops.

use vstd::prelude::*;

use super::whole::{answers, law_a_resumed_move_ends_as_a_clean_one, stands, Scene};
use super::{ends_of, move_step, temp_of, MoveAsk, MoveReply, MoveRequest, Renamed};
use crate::exec::copy::whole::{copies, law_a_finished_copy_is_whole};
use crate::exec::copy::CopyTree;
use crate::exec::disk::{
    held, is_copy, is_elsewhere_same, is_left, lemma_elsewhere_same,
    lemma_elsewhere_wider, lemma_is_copy, lemma_is_left, lemma_nothing_is_left, top_of, tree, Disk,
};
use crate::exec::remove::resume::{
    is_sound_at, lemma_nothing_without_the_top, lemma_removes, lemma_unlinks, removes, space_at,
    way_of,
};
use crate::exec::remove::Removal;
use crate::exec::run::whole::End;
use crate::exec::{still_matches, Step};
use crate::path::components;
use crate::plan::{EntryKind, Ident, Op};
use crate::stat::Stat;

verus! {

/// The names on the way to where a move goes.
pub open spec fn way_to(op: Op) -> Seq<Seq<u8>> {
    components(op->Move_dst@)
}

/// The names on the way to where a copy is assembled.
pub open spec fn way_by(op: Op, index: usize) -> Seq<Seq<u8>> {
    way_to(op).drop_last().push(temp_of(index as nat, way_to(op).last()))
}

pub open spec fn ways_of(op: Op, index: usize) -> Set<Seq<Seq<u8>>> {
    set![way_of(op), way_to(op), way_by(op, index)]
}

/// The request that an operation is carried out by.
pub open spec fn request_of(
    op: Op,
    index: usize,
    strict: bool,
    published: Option<Ident>,
) -> MoveRequest {
    MoveRequest {
        src: op->Move_src,
        dst: op->Move_dst,
        ident: op->Move_ident,
        est_bytes: op->Move_est_bytes,
        on_conflict: op->Move_on_conflict,
        strict,
        index,
        published,
        dry_run: false,
    }
}

/// A move that has come so far: what has just happened to it, what is on the disk, and what is on
/// record as about to be published.
pub struct Point {
    pub reply: MoveReply,
    pub disk: Disk,
    pub record: Option<Ident>,
}

/// The entries that a move is about.
pub open spec fn scene_of(op: Op, index: usize, disk: Disk, record: Option<Ident>) -> Scene {
    Scene {
        source: top_of(tree(disk, way_of(op))),
        temp: top_of(tree(disk, way_by(op, index))),
        dst: top_of(tree(disk, way_to(op))),
        record,
    }
}

pub open spec fn no_tree() -> Map<Seq<Seq<u8>>, Stat> {
    Map::empty()
}

/// Whether a move has been made: the source is gone, and a whole copy of it is at the destination.
/// Where it goes across filesystems no temporary is left.
pub open spec fn is_moved(op: Op, index: usize, crosses: bool, s: Disk, t: Disk) -> bool {
    &&& is_elsewhere_same(s, t, ways_of(op, index))
    &&& tree(t, way_of(op)) == no_tree()
    &&& is_copy(tree(s, way_of(op)), tree(t, way_to(op)))
    &&& tree(t, way_by(op, index)) == (if crosses {
        no_tree()
    } else {
        tree(s, way_by(op, index))
    })
}

/// The most a move frees. One within a filesystem frees nothing.
pub open spec fn space_moved(op: Op, crosses: bool, s: Disk) -> nat {
    if crosses {
        space_at(s, way_of(op))
    } else {
        0
    }
}

/// Whether a move can be begun: the source is what was staged, nothing is at the destination, and
/// what cannot be renamed is not what cannot be copied.
pub open spec fn is_movable(op: Op, crosses: bool, s: Disk) -> bool {
    &&& op is Move
    &&& ends_of(op->Move_src@, op->Move_dst@) is Ok
    &&& is_sound_at(s, way_of(op))
    &&& top_of(tree(s, way_of(op))) matches Some(x)
    &&& still_matches(op->Move_ident, Ident::spec_of(x), true)
    &&& crosses ==> Ident::spec_of(x).kind != EntryKind::Other
    &&& tree(s, way_to(op)) == no_tree()
}

/// Whether nothing has been moved: the source is as it was, and nothing is at the destination.
pub open spec fn is_untouched(op: Op, index: usize, crosses: bool, s: Disk, t: Disk) -> bool {
    &&& tree(t, way_of(op)) == tree(s, way_of(op))
    &&& tree(t, way_to(op)) == no_tree()
    &&& !crosses ==> tree(t, way_by(op, index)) == tree(s, way_by(op, index))
}

/// Whether a whole copy is at the destination and less of the source is there; where any of it is,
/// what is at the destination is what is on record.
pub open spec fn is_arrived(
    op: Op,
    index: usize,
    crosses: bool,
    s: Disk,
    t: Disk,
    record: Option<Ident>,
) -> bool {
    &&& is_copy(tree(s, way_of(op)), tree(t, way_to(op)))
    &&& top_of(tree(t, way_of(op))) is Some ==> {
        &&& crosses
        &&& top_of(tree(t, way_to(op))) matches Some(y)
        &&& record matches Some(entry)
        &&& still_matches(entry, Ident::spec_of(y), false)
    }
    &&& tree(t, way_by(op, index)) == (if crosses {
        no_tree()
    } else {
        tree(s, way_by(op, index))
    })
}

/// Whether a move that was begun on one disk can have left the other, after it had freed so much.
pub open spec fn is_part_moved(
    op: Op,
    index: usize,
    crosses: bool,
    s: Disk,
    t: Disk,
    record: Option<Ident>,
    freed: nat,
) -> bool {
    let w = way_of(op);
    &&& is_movable(op, crosses, s)
    &&& is_elsewhere_same(s, t, ways_of(op, index))
    &&& is_sound_at(t, w)
    &&& is_left(tree(s, w), tree(t, w))
    &&& if tree(t, way_to(op)) == no_tree() {
        is_untouched(op, index, crosses, s, t) && freed == 0
    } else {
        is_arrived(op, index, crosses, s, t, record) && freed + space_at(t, w) <= space_at(s, w) && (
        !crosses ==> freed == 0)
    }
}

/// What a step of a move does to the trees it is about.
pub open spec fn changes(op: Op, index: usize, crosses: bool, ask: MoveAsk, a: Disk, b: Point) -> bool {
    let w = way_of(op);
    let v = way_to(op);
    let u = way_by(op, index);
    match ask {
        MoveAsk::Rename { .. } => {
            &&& b.reply matches MoveReply::Renamed { how, .. }
            &&& (how is Yes) == !crosses
            &&& if how is Yes {
                &&& is_elsewhere_same(a, b.disk, ways_of(op, index))
                &&& tree(b.disk, w) == no_tree()
                &&& is_copy(tree(a, w), tree(b.disk, v))
                &&& tree(b.disk, u) == tree(a, u)
            } else {
                b.disk == a
            }
        },
        MoveAsk::Copy { kind, .. } => {
            &&& is_elsewhere_same(a, b.disk, ways_of(op, index))
            &&& tree(b.disk, w) == tree(a, w)
            &&& tree(b.disk, v) == tree(a, v)
            &&& if kind == EntryKind::Dir {
                exists|copy: CopyTree| #[trigger] copies(copy, tree(a, w), tree(b.disk, u))
            } else {
                is_copy(tree(a, w), tree(b.disk, u))
            }
        },
        MoveAsk::Publish { .. } => {
            &&& is_elsewhere_same(a, b.disk, ways_of(op, index))
            &&& tree(b.disk, w) == tree(a, w)
            &&& is_copy(tree(a, u), tree(b.disk, v))
            &&& tree(b.disk, u) == no_tree()
        },
        MoveAsk::UnlinkSource { .. } => {
            &&& is_elsewhere_same(a, b.disk, ways_of(op, index))
            &&& tree(b.disk, w) == tree(a, w).remove(Seq::empty())
            &&& tree(b.disk, v) == tree(a, v)
            &&& tree(b.disk, u) == tree(a, u)
        },
        _ => b.disk == a,
    }
}

/// Whether a move goes from one point to the next.
pub open spec fn passes(
    op: Op,
    index: usize,
    crosses: bool,
    req: MoveRequest,
    a: Point,
    b: Point,
) -> bool {
    let ask = move_step(req, a.reply);
    &&& answers(
        ask,
        scene_of(op, index, a.disk, a.record),
        b.reply,
        scene_of(op, index, b.disk, b.record),
    )
    &&& changes(op, index, crosses, ask, a.disk, b)
}

/// Whether a copy that was cut off, or stopped, can have left that disk.
pub open spec fn is_half_copied(op: Op, index: usize, a: Disk, b: Disk) -> bool {
    &&& is_elsewhere_same(a, b, ways_of(op, index))
    &&& tree(b, way_of(op)) == tree(a, way_of(op))
    &&& tree(b, way_to(op)) == tree(a, way_to(op))
}

/// Whether removing the source, as far as it has come, leaves that disk.
pub open spec fn reclaims(
    removal: Removal,
    op: Op,
    index: usize,
    size: u64,
    a: Disk,
    b: Disk,
) -> bool {
    &&& removes(removal, way_of(op), size, a, b)
    &&& tree(b, way_to(op)) == tree(a, way_to(op))
    &&& tree(b, way_by(op, index)) == tree(a, way_by(op, index))
}

/// Whether a move that has come so far stops there, with that disk.
pub open spec fn stops(
    op: Op,
    index: usize,
    crosses: bool,
    req: MoveRequest,
    last: Point,
    end: End,
    d: Disk,
) -> bool {
    let ask = move_step(req, last.reply);
    match end {
        End::Done(freed) => {
            ||| ask == MoveAsk::Finished(Step::Done(freed)) && d == last.disk
            ||| exists|removal: Removal|
                {
                    &&& ask is RemoveSourceTree
                    &&& #[trigger] reclaims(
                        removal,
                        op,
                        index,
                        ask->RemoveSourceTree_disk,
                        last.disk,
                        d,
                    )
                    &&& removal.all_cleared()
                    &&& removal.freed == freed
                }
        },
        // Only copying stops on the way; removing the source does not.
        End::Paused(freed) => {
            ||| ask == MoveAsk::Finished(Step::Paused(freed)) && d == last.disk
            ||| {
                &&& crosses
                &&& ask is Copy
                &&& is_half_copied(op, index, last.disk, d)
                &&& move_step(
                    req,
                    MoveReply::Copied { source: ask->Copy_source, result: Ok(Step::Paused(0)) },
                ) == MoveAsk::Finished(Step::Paused(freed))
            }
        },
        End::Failed(error) => ask == MoveAsk::Failed(error@),
        End::Cut => {
            ||| d == last.disk
            ||| ask is Copy && is_half_copied(op, index, last.disk, d)
            ||| exists|removal: Removal|
                ask is RemoveSourceTree && #[trigger] reclaims(
                    removal,
                    op,
                    index,
                    ask->RemoveSourceTree_disk,
                    last.disk,
                    d,
                )
        },
    }
}

/// Whether a move, carried out from one disk, goes by these points and then stops with the other.
pub open spec fn goes(
    op: Op,
    index: usize,
    crosses: bool,
    strict: bool,
    record: Option<Ident>,
    a: Disk,
    chain: Seq<Point>,
    end: End,
    b: Disk,
    on_record: Option<Ident>,
) -> bool {
    let req = request_of(op, index, strict, record);
    &&& chain.len() > 0
    &&& chain[0] == (Point { reply: MoveReply::Start, disk: a, record })
    &&& forall|i: int|
        1 <= i < chain.len() ==> passes(
            op,
            index,
            crosses,
            req,
            chain[i - 1],
            #[trigger] chain[i],
        )
    &&& stops(op, index, crosses, req, chain.last(), end, b)
    &&& on_record == chain.last().record
}

/// Whether carrying out a move can end so.
pub open spec fn is_carried_out(
    op: Op,
    index: usize,
    crosses: bool,
    strict: bool,
    record: Option<Ident>,
    a: Disk,
    end: End,
    b: Disk,
    on_record: Option<Ident>,
) -> bool {
    exists|chain: Seq<Point>| #[trigger]
        goes(op, index, crosses, strict, record, a, chain, end, b, on_record)
}

/// What a move has freed by the time this happened to it, and has yet to say.
spec fn in_hand(reply: MoveReply) -> nat {
    match reply {
        MoveReply::Unlinked { source, .. } => source.spec_disk() as nat,
        _ => 0,
    }
}

/// Whether the temporary is a whole copy, where it should be.
spec fn is_ready(op: Op, index: usize, s: Disk, p: Point) -> bool {
    p.reply is Copied || p.reply is Temporary || p.reply is Recorded ==> is_copy(
        tree(s, way_of(op)),
        tree(p.disk, way_by(op, index)),
    )
}

/// Whether it goes across filesystems, where it has come past the rename.
spec fn is_past(crosses: bool, reply: MoveReply) -> bool {
    &&& reply matches MoveReply::Renamed { how, .. } ==> (how is Yes) == !crosses
    &&& reply is Copied || reply is Temporary || reply is Recorded || reply is Published
        || reply is Announced ==> crosses
}

spec fn holds(
    op: Op,
    index: usize,
    crosses: bool,
    req: MoveRequest,
    s: Disk,
    p: Point,
    freed: nat,
) -> bool {
    &&& stands(req, p.reply, scene_of(op, index, p.disk, p.record))
    &&& is_part_moved(op, index, crosses, s, p.disk, p.record, freed + in_hand(p.reply))
    &&& is_ready(op, index, s, p)
    &&& is_past(crosses, p.reply)
}

/// The destination of a move is empty exactly where nothing is at the end of the way there.
proof fn lemma_arrival(
    op: Op,
    index: usize,
    crosses: bool,
    s: Disk,
    t: Disk,
    record: Option<Ident>,
    freed: nat,
)
    requires
        is_part_moved(op, index, crosses, s, t, record, freed),
    ensures
        (top_of(tree(t, way_to(op))) is None) == (tree(t, way_to(op)) == no_tree()),
{
    let ts = tree(s, way_of(op));
    assert(ts.dom().contains(Seq::empty()));
    if tree(t, way_to(op)) != no_tree() {
        assert(tree(t, way_to(op)).dom().contains(Seq::empty()));
    }
}

proof fn lemma_renames(
    op: Op,
    index: usize,
    s: Disk,
    a: Point,
    b: Point,
    freed: nat,
)
    requires
        is_part_moved(op, index, false, s, a.disk, a.record, freed),
        tree(a.disk, way_to(op)) == no_tree(),
        is_elsewhere_same(a.disk, b.disk, ways_of(op, index)),
        tree(b.disk, way_of(op)) == no_tree(),
        is_copy(tree(a.disk, way_of(op)), tree(b.disk, way_to(op))),
        tree(b.disk, way_by(op, index)) == tree(a.disk, way_by(op, index)),
    ensures
        is_part_moved(op, index, false, s, b.disk, b.record, freed),
{
    let w = way_of(op);
    lemma_elsewhere_same(s, a.disk, b.disk, ways_of(op, index));
    lemma_nothing_is_left(tree(s, w));
    lemma_no_space(b.disk, w);
    assert(tree(s, w).dom().contains(Seq::empty()));
    assert(tree(b.disk, way_to(op)).dom().contains(Seq::empty()));
    assert(!no_tree().dom().contains(Seq::empty()));
}

/// A tree that is not there takes up nothing.
proof fn lemma_no_space(d: Disk, w: Seq<Seq<u8>>)
    requires
        tree(d, w) == no_tree(),
    ensures
        held(tree(d, w), w.last()).dom().finite(),
        space_at(d, w) == 0,
{
    assert(held(tree(d, w), w.last()).dom() =~= Set::<Seq<Seq<u8>>>::empty());
}

proof fn lemma_copies(op: Op, index: usize, s: Disk, a: Disk, b: Disk, record: Option<Ident>)
    requires
        is_part_moved(op, index, true, s, a, record, 0),
        tree(a, way_to(op)) == no_tree(),
        is_half_copied(op, index, a, b),
    ensures
        is_part_moved(op, index, true, s, b, record, 0),
{
    lemma_elsewhere_same(s, a, b, ways_of(op, index));
}

proof fn lemma_publishes(op: Op, index: usize, s: Disk, a: Point, b: Point)
    requires
        is_part_moved(op, index, true, s, a.disk, a.record, 0),
        tree(a.disk, way_to(op)) == no_tree(),
        is_copy(tree(s, way_of(op)), tree(a.disk, way_by(op, index))),
        is_elsewhere_same(a.disk, b.disk, ways_of(op, index)),
        tree(b.disk, way_of(op)) == tree(a.disk, way_of(op)),
        is_copy(tree(a.disk, way_by(op, index)), tree(b.disk, way_to(op))),
        tree(b.disk, way_by(op, index)) == no_tree(),
        top_of(tree(b.disk, way_to(op))) matches Some(y) && (b.record matches Some(entry)
            && still_matches(entry, Ident::spec_of(y), false)),
    ensures
        is_part_moved(op, index, true, s, b.disk, b.record, 0),
{
    let w = way_of(op);
    lemma_elsewhere_same(s, a.disk, b.disk, ways_of(op, index));
    lemma_is_copy(tree(s, w), tree(a.disk, way_by(op, index)), tree(b.disk, way_to(op)));
    assert(!no_tree().dom().contains(Seq::empty()));
}

proof fn lemma_unlinks_source(
    op: Op,
    index: usize,
    crosses: bool,
    s: Disk,
    a: Point,
    b: Point,
    freed: nat,
)
    requires
        is_part_moved(op, index, crosses, s, a.disk, a.record, freed),
        tree(a.disk, way_to(op)) != no_tree(),
        top_of(tree(a.disk, way_of(op))) matches Some(x) && Ident::spec_of(x).kind
            != EntryKind::Dir,
        is_elsewhere_same(a.disk, b.disk, ways_of(op, index)),
        tree(b.disk, way_of(op)) == tree(a.disk, way_of(op)).remove(Seq::empty()),
        tree(b.disk, way_to(op)) == tree(a.disk, way_to(op)),
        tree(b.disk, way_by(op, index)) == tree(a.disk, way_by(op, index)),
    ensures
        is_part_moved(
            op,
            index,
            crosses,
            s,
            b.disk,
            b.record,
            freed + top_of(tree(a.disk, way_of(op)))->0.spec_disk() as nat,
        ),
{
    let w = way_of(op);
    lemma_elsewhere_same(s, a.disk, b.disk, ways_of(op, index));
    lemma_unlinks(w, a.disk, b.disk);
    lemma_is_left(tree(s, w), tree(a.disk, w), tree(b.disk, w));
    assert(!tree(b.disk, w).dom().contains(Seq::empty()));
}

proof fn lemma_step(
    op: Op,
    index: usize,
    crosses: bool,
    strict: bool,
    record: Option<Ident>,
    s: Disk,
    a: Point,
    b: Point,
    freed: nat,
)
    requires
        holds(op, index, crosses, request_of(op, index, strict, record), s, a, freed),
        passes(op, index, crosses, request_of(op, index, strict, record), a, b),
    ensures
        holds(op, index, crosses, request_of(op, index, strict, record), s, b, freed),
{
    let req = request_of(op, index, strict, record);
    let x = scene_of(op, index, a.disk, a.record);
    let y = scene_of(op, index, b.disk, b.record);
    let ask = move_step(req, a.reply);
    law_a_resumed_move_ends_as_a_clean_one(req, a.reply, x, b.reply, y);
    lemma_arrival(op, index, crosses, s, a.disk, a.record, freed + in_hand(a.reply));
    match ask {
        MoveAsk::Rename { .. } => {
            if b.reply->Renamed_how is Yes {
                lemma_renames(op, index, s, a, b, freed);
            }
        },
        MoveAsk::Copy { .. } => {
            if ask->Copy_kind == EntryKind::Dir {
                let (from, to) = (tree(a.disk, way_of(op)), tree(b.disk, way_by(op, index)));
                let copy = choose|copy: CopyTree| #[trigger] copies(copy, from, to);
                law_a_finished_copy_is_whole(copy, from, to);
            }
            lemma_copies(op, index, s, a.disk, b.disk, a.record);
        },
        MoveAsk::Publish { .. } => {
            lemma_publishes(op, index, s, a, b);
        },
        MoveAsk::UnlinkSource { .. } => {
            lemma_unlinks_source(op, index, crosses, s, a, b, freed);
        },
        _ => {},
    }
}

proof fn lemma_holds(
    op: Op,
    index: usize,
    crosses: bool,
    strict: bool,
    record: Option<Ident>,
    s: Disk,
    t: Disk,
    freed: nat,
    chain: Seq<Point>,
    n: int,
)
    requires
        is_part_moved(op, index, crosses, s, t, record, freed),
        strict ==> t == s && record is None,
        0 <= n < chain.len(),
        chain[0] == (Point { reply: MoveReply::Start, disk: t, record }),
        forall|i: int|
            1 <= i < chain.len() ==> passes(
                op,
                index,
                crosses,
                request_of(op, index, strict, record),
                chain[i - 1],
                #[trigger] chain[i],
            ),
    ensures
        holds(op, index, crosses, request_of(op, index, strict, record), s, chain[n], freed),
    decreases n,
{
    if n == 0 {
        lemma_arrival(op, index, crosses, s, t, record, freed);
        let w = way_of(op);
        assert(tree(t, w).contains_key(Seq::empty()) ==> tree(s, w).contains_key(Seq::empty()));
        assert(tree(s, w).dom().contains(Seq::empty()));
        assert(!no_tree().dom().contains(Seq::empty()));
        assert(tree(s, way_to(op)) == no_tree());
    } else {
        lemma_holds(op, index, crosses, strict, record, s, t, freed, chain, n - 1);
        lemma_step(op, index, crosses, strict, record, s, chain[n - 1], chain[n], freed);
    }
}

/// Part of the source is removed, or all of it.
proof fn lemma_reclaims(
    removal: Removal,
    op: Op,
    index: usize,
    crosses: bool,
    size: u64,
    s: Disk,
    a: Disk,
    b: Disk,
    record: Option<Ident>,
    freed: nat,
)
    requires
        is_part_moved(op, index, crosses, s, a, record, freed),
        tree(a, way_to(op)) != no_tree(),
        top_of(tree(a, way_of(op))) matches Some(x) && Ident::spec_of(x).kind == EntryKind::Dir,
        reclaims(removal, op, index, size, a, b),
    ensures
        is_part_moved(op, index, crosses, s, b, record, freed + removal.freed as nat),
        removal.all_cleared() ==> is_moved(op, index, crosses, s, b),
{
    let w = way_of(op);
    lemma_removes(removal, w, size, a, b);
    lemma_elsewhere_wider(a, b, set![w], ways_of(op, index));
    lemma_elsewhere_same(s, a, b, ways_of(op, index));
    lemma_is_left(tree(s, w), tree(a, w), tree(b, w));
}

/// A move can be taken up again wherever it was left: it does not fail, it ends with the source gone
/// and a whole copy of it at the destination, and altogether it frees no more than there was.
pub proof fn law_a_move_can_be_taken_up_again(
    op: Op,
    index: usize,
    crosses: bool,
    strict: bool,
    record: Option<Ident>,
    s: Disk,
    t: Disk,
    freed: nat,
    end: End,
    after: Disk,
    on_record: Option<Ident>,
) -> (sum: nat)
    requires
        is_part_moved(op, index, crosses, s, t, record, freed),
        strict ==> t == s && record is None,
        is_carried_out(op, index, crosses, strict, record, t, end, after, on_record),
    ensures
        !(end is Failed),
        end matches End::Done(more) ==> is_moved(op, index, crosses, s, after) && sum == freed
            + more,
        end matches End::Paused(more) ==> sum == freed + more,
        sum >= freed,
        is_part_moved(op, index, crosses, s, after, on_record, sum),
{
    let req = request_of(op, index, strict, record);
    let w = way_of(op);
    let chain = choose|chain: Seq<Point>| #[trigger]
        goes(op, index, crosses, strict, record, t, chain, end, after, on_record);
    let last = chain.last();
    lemma_holds(op, index, crosses, strict, record, s, t, freed, chain, chain.len() - 1);
    let ask = move_step(req, last.reply);
    let scene = scene_of(op, index, last.disk, last.record);
    law_a_resumed_move_ends_as_a_clean_one(req, last.reply, scene, MoveReply::Start, scene);
    lemma_arrival(op, index, crosses, s, last.disk, last.record, freed + in_hand(last.reply));
    if ask is RemoveSourceTree {
        if exists|removal: Removal| #[trigger]
            reclaims(removal, op, index, ask->RemoveSourceTree_disk, last.disk, after) && (
            end is Done ==> removal.all_cleared() && removal.freed == end->Done_0) {
            let removal = choose|removal: Removal| #[trigger]
                reclaims(removal, op, index, ask->RemoveSourceTree_disk, last.disk, after) && (
                end is Done ==> removal.all_cleared() && removal.freed == end->Done_0);
            lemma_reclaims(
                removal,
                op,
                index,
                crosses,
                ask->RemoveSourceTree_disk,
                s,
                last.disk,
                after,
                last.record,
                freed,
            );
            freed + removal.freed as nat
        } else {
            assert(end is Cut);
            freed
        }
    } else if ask is Copy {
        if is_half_copied(op, index, last.disk, after) {
            lemma_copies(op, index, s, last.disk, after, last.record);
        }
        freed
    } else {
        if ask is Finished {
            lemma_nothing_without_the_top(tree(last.disk, w));
        }
        freed + in_hand(last.reply)
    }
}

} // verus!
