//! Finding files with identical contents.
//!
//! Three stages, each cheaper than the next and each shrinking the input to the one after:
//!
//! 1. **Group by size.** Files of different lengths cannot be identical, and this costs nothing:
//!    the scanner already knows every size. On a real tree it discards the overwhelming majority.
//! 2. **Sample the ends.** Hash the first and last few kilobytes. Files that differ usually differ
//!    near the start, and this reads a fixed amount however large they are.
//! 3. **Hash in full.** Only what survived, and only the parts that were not already read whole.
//!
//! Hardlinks are excluded rather than reported: two names for one inode are not two copies, and
//! deleting one reclaims nothing.

pub mod whole;

use std::collections::HashMap;

use vstd::prelude::*;

use crate::bytes::{le_bytes, push_le};
use crate::digest::{blake3_of, Digest};
use crate::model::{flags, Node, NodeId, Tree};
use crate::order::alike::{
    group, groups_of, has_twin, law_alike_are_grouped, law_groups_are_alike, lemma_order_exists,
    lemma_order_of, order_of, same_key, twins,
};
use crate::order::{
    bytes_at_most, comes_first, ints, is_bytes_at_most, is_order, lemma_bytes_total,
    lemma_bytes_transitive, lemma_order_distinct, stable_order, Rank, Ranked,
};
use crate::scan::threads_for;

verus! {

broadcast use vstd::std_specs::hash::group_hash_axioms;

/// Bytes read from each end during the sampling stage.
pub const SAMPLE: u64 = 4096;

/// Flags of what is never reported: what is no regular file, what could not be read or is left
/// out, and further names of an inode, which are not further copies of the data.
pub const SKIP: u16 = flags::DIR | flags::SYMLINK | flags::OTHER | flags::ERR | flags::EXCLUDED
    | flags::HARDLINK_DUP;

#[derive(Clone, Copy, Debug, PartialEq, Eq, Structural)]
pub struct DupOptions {
    /// Files smaller than this are ignored. Duplicated small files are common, numerous, and not
    /// worth the reading it takes to prove it.
    pub min_size: u64,
    pub threads: usize,
}

impl DupOptions {
    /// The options a search has unless something else is asked for, on a machine that can run this
    /// many threads at once.
    pub fn standard(parallelism: Option<usize>) -> (r: Self)
        ensures
            r == (DupOptions { min_size: 4096, threads: threads_for(parallelism) }),
    {
        let threads: usize = match parallelism {
            None => 4,
            Some(n) => if n < 1 {
                1
            } else if n > 8 {
                8
            } else {
                n
            },
        };
        DupOptions { min_size: 4096, threads }
    }

    /// How many threads hash `n` files: one at least, and no more than there are files.
    pub fn threads_over(&self, n: usize) -> (r: usize)
        ensures
            r == (if n < 1 || self.threads < 1 {
                if n < 1 {
                    n
                } else {
                    1
                }
            } else if self.threads < n {
                self.threads
            } else {
                n
            }),
    {
        let most: usize = if self.threads < 1 {
            1
        } else {
            self.threads
        };
        if most < n {
            most
        } else {
            n
        }
    }
}

/// A set of files with identical contents.
#[derive(Clone, Debug, PartialEq, Eq)]
pub struct DupGroup {
    /// Every copy, largest disk usage first, so the one to keep is the one listed first.
    pub nodes: Vec<NodeId>,
    /// Apparent size of each copy; they are all the same.
    pub size: u64,
    /// Disk bytes reclaimable by keeping the first copy and removing the rest.
    ///
    /// A member that has further hardlinks elsewhere in the filesystem contributes nothing:
    /// removing one of its names frees no space until the last one goes, and a total that
    /// pretended otherwise would promise space that never arrives.
    pub wasted: u64,
}

/// A set of files, in terms of the nodes it holds.
pub struct GroupNote {
    pub nodes: Seq<NodeId>,
    pub size: u64,
    pub wasted: nat,
}

impl View for DupGroup {
    type V = GroupNote;

    open spec fn view(&self) -> GroupNote {
        GroupNote { nodes: self.nodes@, size: self.size, wasted: self.wasted as nat }
    }
}

pub open spec fn group_views(groups: Seq<DupGroup>) -> Seq<GroupNote> {
    groups.map_values(|g: DupGroup| g@)
}

#[derive(Clone, Copy, Debug, PartialEq, Eq, Structural)]
pub struct DupProgress {
    /// Files that still might be duplicates.
    pub candidates: usize,
    pub hashed: usize,
    pub bytes_read: u64,
}

impl Default for DupProgress {
    fn default() -> (r: Self)
        ensures
            r == (DupProgress { candidates: 0, hashed: 0, bytes_read: 0 }),
    {
        DupProgress { candidates: 0, hashed: 0, bytes_read: 0 }
    }
}

/// What the first `n` groups waste together.
pub open spec fn wasted_by(groups: Seq<DupGroup>, n: int) -> nat
    decreases n,
{
    if n <= 0 {
        0
    } else {
        wasted_by(groups, n - 1) + groups[n - 1].wasted as nat
    }
}

proof fn lemma_wasted_grows(groups: Seq<DupGroup>, i: int, j: int)
    requires
        0 <= i <= j,
    ensures
        wasted_by(groups, i) <= wasted_by(groups, j),
    decreases j - i,
{
    if i < j {
        lemma_wasted_grows(groups, i, j - 1);
    }
}

/// Whether what is reclaimable across every group can be added up.
pub fn can_total_wasted(groups: &[DupGroup]) -> (r: bool)
    ensures
        r == (wasted_by(groups@, groups@.len() as int) <= u64::MAX),
{
    let mut sum: u64 = 0;
    let mut i: usize = 0;
    while i < groups.len()
        invariant
            i <= groups@.len(),
            sum == wasted_by(groups@, i as int),
        decreases groups.len() - i,
    {
        proof {
            lemma_wasted_grows(groups@, i + 1, groups@.len() as int);
        }
        match sum.checked_add(groups[i].wasted) {
            Some(more) => {
                sum = more;
            },
            None => return false,
        }
        i += 1;
    }
    true
}

/// Total reclaimable across every group.
pub fn total_wasted(groups: &[DupGroup]) -> (r: u64)
    requires
        wasted_by(groups@, groups@.len() as int) <= u64::MAX,
    ensures
        r == wasted_by(groups@, groups@.len() as int),
{
    let mut sum: u64 = 0;
    let mut i: usize = 0;
    while i < groups.len()
        invariant
            i <= groups@.len(),
            sum == wasted_by(groups@, i as int),
            wasted_by(groups@, groups@.len() as int) <= u64::MAX,
        decreases groups.len() - i,
    {
        proof {
            lemma_wasted_grows(groups@, i + 1, groups@.len() as int);
        }
        sum = sum + groups[i].wasted;
        i += 1;
    }
    sum
}

/// True when removing this name would not free its blocks, because other names still point at the
/// same inode. Frontends should say so rather than offer space that will not appear.
pub fn shares_inode(tree: &Tree, id: NodeId) -> (r: bool)
    requires
        tree.holds(id),
    ensures
        r == (tree.nodes()[id as int].carries(flags::HARDLINK) || tree.nodes()[id as int].carries(
            flags::HARDLINK_DUP,
        )),
{
    let node = tree.node(id);
    node.has(flags::HARDLINK) || node.has(flags::HARDLINK_DUP)
}

// ---------------------------------------------------------------------------------------------
// Candidates

/// Whether a walk from the root through directories comes by node `i`.
pub open spec fn is_reached(nodes: Seq<Node>, i: int) -> bool
    decreases i,
{
    0 < i < nodes.len() && nodes[i].parent < i && (nodes[i].parent == 0 || (
    nodes[nodes[i].parent as int].carries(flags::DIR) && is_reached(nodes, nodes[i].parent as int)))
}

/// Whether node `i` is a regular file big enough to matter.
pub open spec fn is_candidate(nodes: Seq<Node>, min_size: u64, i: int) -> bool {
    is_reached(nodes, i) && !nodes[i].carries(flags::DIR) && nodes[i].flags & SKIP == 0
        && nodes[i].apparent >= min_size
}

/// The candidates among the first `n` nodes.
pub open spec fn candidates_among(nodes: Seq<Node>, min_size: u64, n: int) -> Seq<NodeId>
    decreases n,
{
    if n <= 0 {
        Seq::empty()
    } else if is_candidate(nodes, min_size, n - 1) {
        candidates_among(nodes, min_size, n - 1).push((n - 1) as NodeId)
    } else {
        candidates_among(nodes, min_size, n - 1)
    }
}

/// Those of the first `n` items that are to be kept.
pub open spec fn picked<T>(items: Seq<T>, keep: spec_fn(int) -> bool, n: int) -> Seq<T>
    decreases n,
{
    if n <= 0 {
        Seq::empty()
    } else if keep(n - 1) {
        picked(items, keep, n - 1).push(items[n - 1])
    } else {
        picked(items, keep, n - 1)
    }
}

/// Keep what another has the same key as.
pub open spec fn with_twins<K: Ranked>(keys: Seq<K>) -> spec_fn(int) -> bool {
    |i: int| has_twin(keys, i)
}

pub open spec fn size_keys(nodes: Seq<Node>, ids: Seq<NodeId>) -> Seq<Rank> {
    ids.map_values(|id: NodeId| Rank { major: nodes[id as int].apparent, minor: 0 })
}

/// The files that another is as long as.
pub open spec fn same_sizes(nodes: Seq<Node>, min_size: u64) -> Seq<NodeId> {
    let files = candidates_among(nodes, min_size, nodes.len() as int);
    picked(files, with_twins(size_keys(nodes, files)), files.len() as int)
}

/// Whether ids are of files in the tree, each there once.
pub open spec fn are_files(nodes: Seq<Node>, ids: Seq<NodeId>) -> bool {
    &&& forall|i: int, j: int| 0 <= i < j < ids.len() ==> #[trigger] ids[i] < #[trigger] ids[j]
    &&& forall|i: int|
        0 <= i < ids.len() ==> (#[trigger] ids[i]) < nodes.len()
            && !nodes[ids[i] as int].carries(flags::DIR)
}

pub(crate) proof fn lemma_candidates_are_files(nodes: Seq<Node>, min_size: u64, n: int)
    requires
        0 <= n <= nodes.len(),
        n <= 0xffff_ffff,
    ensures
        are_files(nodes, candidates_among(nodes, min_size, n)),
        forall|i: int|
            0 <= i < candidates_among(nodes, min_size, n).len() ==> (#[trigger] candidates_among(
                nodes,
                min_size,
                n,
            )[i]) < n,
    decreases n,
{
    if n > 0 {
        lemma_candidates_are_files(nodes, min_size, n - 1);
    }
}

/// The regular files big enough to matter, in the order they stand in the tree.
fn files_in(tree: &Tree, min_size: u64) -> (r: Vec<NodeId>)
    requires
        tree.wf(),
    ensures
        r@ == candidates_among(tree.nodes(), min_size, tree.nodes().len() as int),
        are_files(tree.nodes(), r@),
{
    let nodes = tree.raw_nodes();
    let n: usize = nodes.len();
    let mut reached: Vec<bool> = Vec::new();
    let mut out: Vec<NodeId> = Vec::new();
    let mut i: usize = 0;
    while i < n
        invariant
            i <= n,
            tree.wf(),
            n == nodes@.len(),
            nodes@ == tree.nodes(),
            reached@.len() == i,
            forall|k: int| 0 <= k < i ==> #[trigger] reached@[k] == is_reached(nodes@, k),
            out@ == candidates_among(nodes@, min_size, i as int),
        decreases n - i,
    {
        let node = &nodes[i];
        let here = if i > 0 && (node.parent as usize) < i {
            node.parent == 0 || (nodes[node.parent as usize].is_dir()
                && reached[node.parent as usize])
        } else {
            false
        };
        proof {
            assert(here == is_reached(nodes@, i as int));
        }
        reached.push(here);
        if here && !node.is_dir() && node.flags & SKIP == 0 && node.apparent >= min_size {
            out.push(i as NodeId);
        }
        i += 1;
    }
    proof {
        lemma_candidates_are_files(nodes@, min_size, n as int);
    }
    out
}

spec fn is_among(ids: Seq<NodeId>, n: int, x: NodeId) -> bool {
    exists|k: int| 0 <= k < n && #[trigger] ids[k] == x
}

/// What is left of some files are files.
proof fn lemma_picked_are_files(
    nodes: Seq<Node>,
    ids: Seq<NodeId>,
    keep: spec_fn(int) -> bool,
    n: int,
)
    requires
        are_files(nodes, ids),
        0 <= n <= ids.len(),
    ensures
        are_files(nodes, picked(ids, keep, n)),
        forall|i: int|
            0 <= i < picked(ids, keep, n).len() ==> is_among(
                ids,
                n,
                #[trigger] picked(ids, keep, n)[i],
            ),
    decreases n,
{
    if n > 0 {
        lemma_picked_are_files(nodes, ids, keep, n - 1);
        let before = picked(ids, keep, n - 1);
        let after = picked(ids, keep, n);
        assert forall|i: int| 0 <= i < after.len() implies is_among(
            ids,
            n,
            #[trigger] after[i],
        ) by {
            if i < before.len() {
                assert(after[i] == before[i]);
                assert(is_among(ids, n - 1, before[i]));
            } else {
                assert(ids[n - 1] == after[i]);
            }
        }
        assert forall|i: int, j: int| 0 <= i < j < after.len() implies #[trigger] after[i]
            < #[trigger] after[j] by {
            if j == before.len() {
                assert(is_among(ids, n - 1, before[i]));
                let k = choose|k: int| 0 <= k < n - 1 && #[trigger] ids[k] == before[i];
                assert(ids[k] < ids[n - 1]);
            }
        }
        assert forall|i: int| 0 <= i < after.len() implies (#[trigger] after[i]) < nodes.len()
            && !nodes[after[i] as int].carries(flags::DIR) by {
            let k = choose|k: int| 0 <= k < n && #[trigger] ids[k] == after[i];
            assert(ids[k] == after[i]);
        }
    }
}

/// Regular files big enough to matter that another is exactly as long as.
pub fn candidates_by_size(tree: &Tree, opts: &DupOptions) -> (r: Vec<NodeId>)
    requires
        tree.wf(),
    ensures
        r@ == same_sizes(tree.nodes(), opts.min_size),
        are_files(tree.nodes(), r@),
{
    let files = files_in(tree, opts.min_size);
    let mut keys: Vec<Rank> = Vec::new();
    let mut i: usize = 0;
    while i < files.len()
        invariant
            i <= files@.len(),
            are_files(tree.nodes(), files@),
            keys@.len() == i,
            forall|k: int|
                0 <= k < i ==> #[trigger] keys@[k] == size_keys(tree.nodes(), files@)[k],
        decreases files.len() - i,
    {
        keys.push(Rank { major: tree.node(files[i]).apparent, minor: 0 });
        i += 1;
    }
    proof {
        assert(keys@ =~= size_keys(tree.nodes(), files@));
    }
    let marks = twins(&keys);
    let mut out: Vec<NodeId> = Vec::new();
    i = 0;
    while i < files.len()
        invariant
            i <= files@.len(),
            marks@.len() == files@.len(),
            forall|k: int| 0 <= k < marks@.len() ==> #[trigger] marks@[k] == has_twin(keys@, k),
            out@ == picked(files@, with_twins(keys@), i as int),
        decreases files.len() - i,
    {
        if marks[i] {
            out.push(files[i]);
        }
        i += 1;
    }
    proof {
        lemma_picked_are_files(
            tree.nodes(),
            files@,
            with_twins(keys@),
            files@.len() as int,
        );
    }
    out
}

// ---------------------------------------------------------------------------------------------
// Digests

#[derive(Clone, Copy, Debug, PartialEq, Eq, Structural)]
pub enum Depth {
    /// The first and last few kilobytes.
    Ends,
    Whole,
}

/// Whether a file of this size is read from end to end. One that its two samples cover is.
pub open spec fn reads_whole(size: u64, depth: Depth) -> bool {
    depth == Depth::Whole || size <= 2 * SAMPLE
}

/// What the digest of a file is waiting for.
#[derive(Clone, Copy, Debug, PartialEq, Eq, Structural)]
pub enum Want {
    /// The next chunk, or nothing at the end.
    Chunk,
    /// The first few kilobytes.
    Head,
    /// The last few kilobytes.
    Tail,
    Nothing,
}

/// The digest of a file in the making, from either both ends or all of it.
pub struct FileDigest {
    pub digest: Digest,
    pub size: u64,
    pub read: u64,
    pub want: Want,
}

impl FileDigest {
    pub fn begin(size: u64, depth: Depth) -> (r: FileDigest)
        ensures
            r.digest.taken() == Seq::<u8>::empty(),
            r.size == size,
            r.read == 0,
            r.want == (if reads_whole(size, depth) {
                Want::Chunk
            } else {
                Want::Head
            }),
    {
        let want = if depth == Depth::Whole || size <= 2 * SAMPLE {
            Want::Chunk
        } else {
            Want::Head
        };
        FileDigest { digest: Digest::new(), size, read: 0, want }
    }

    /// Take in what was read.
    ///
    /// Length is part of the identity where only the ends are read: without it, two files whose
    /// ends agree but whose middles differ in length would collide at this stage.
    pub fn take_in(&mut self, bytes: &[u8])
        requires
            !(old(self).want is Nothing),
            old(self).read + bytes@.len() <= u64::MAX,
        ensures
            final(self).size == old(self).size,
            final(self).read == old(self).read + bytes@.len(),
            match old(self).want {
                Want::Chunk => {
                    &&& final(self).digest.taken() == old(self).digest.taken() + bytes@
                    &&& final(self).want == (if bytes@.len() == 0 {
                        Want::Nothing
                    } else {
                        Want::Chunk
                    })
                },
                Want::Head => {
                    &&& final(self).digest.taken() == old(self).digest.taken() + bytes@
                    &&& final(self).want == Want::Tail
                },
                _ => {
                    &&& final(self).digest.taken() == old(self).digest.taken() + bytes@ + le_bytes(
                        old(self).size as nat,
                        8,
                    )
                    &&& final(self).want == Want::Nothing
                },
            },
    {
        self.digest.add_bytes(bytes);
        self.read = self.read + bytes.len() as u64;
        match self.want {
            Want::Chunk => {
                if bytes.len() == 0 {
                    self.want = Want::Nothing;
                }
            },
            Want::Head => {
                self.want = Want::Tail;
            },
            _ => {
                let mut size: Vec<u8> = Vec::new();
                push_le(&mut size, self.size, 8);
                proof {
                    assert(size@ =~= le_bytes(self.size as nat, 8));
                }
                self.digest.add_bytes(size.as_slice());
                self.want = Want::Nothing;
            },
        }
    }

    /// The digest, and how much was read for it.
    pub fn finish(&self) -> (r: ([u8; 32], u64))
        ensures
            r.0@ == blake3_of(self.digest.taken()),
            r.1 == self.read,
    {
        (self.digest.value(), self.read)
    }
}

/// A file and its digest.
#[derive(Clone, Copy, Debug, PartialEq, Eq)]
pub struct Hashed {
    pub id: NodeId,
    pub digest: [u8; 32],
}

impl Ranked for Hashed {
    open spec fn at_most(&self, other: &Self) -> bool {
        bytes_at_most(self.digest@, other.digest@)
    }

    proof fn total(a: &Self, b: &Self) {
        lemma_bytes_total(a.digest@, b.digest@);
    }

    proof fn transitive(a: &Self, b: &Self, c: &Self) {
        lemma_bytes_transitive(a.digest@, b.digest@, c.digest@);
    }

    fn is_at_most(&self, other: &Self) -> (r: bool) {
        is_bytes_at_most(self.digest.as_slice(), other.digest.as_slice())
    }
}

// ---------------------------------------------------------------------------------------------
// The search

pub open spec fn ids_of(list: Seq<Hashed>) -> Seq<NodeId> {
    list.map_values(|h: Hashed| h.id)
}

proof fn lemma_picked_ids(list: Seq<Hashed>, keep: spec_fn(int) -> bool, n: int)
    requires
        0 <= n <= list.len(),
    ensures
        ids_of(picked(list, keep, n)) == picked(ids_of(list), keep, n),
    decreases n,
{
    if n > 0 {
        lemma_picked_ids(list, keep, n - 1);
        assert(ids_of(picked(list, keep, n)) =~= picked(ids_of(list), keep, n));
    } else {
        assert(ids_of(picked(list, keep, n)) =~= picked(ids_of(list), keep, n));
    }
}

proof fn lemma_list_are_files(
    nodes: Seq<Node>,
    list: Seq<Hashed>,
    keep: spec_fn(int) -> bool,
    n: int,
)
    requires
        are_files(nodes, ids_of(list)),
        0 <= n <= list.len(),
    ensures
        are_files(nodes, ids_of(picked(list, keep, n))),
{
    lemma_picked_ids(list, keep, n);
    lemma_picked_are_files(nodes, ids_of(list), keep, n);
}

/// What the first `n` of some digests say of each file. The last one counts.
pub open spec fn digests_in(found: Seq<Hashed>, n: int) -> Map<NodeId, [u8; 32]>
    decreases n,
{
    if n <= 0 {
        Map::empty()
    } else {
        digests_in(found, n - 1).insert(found[n - 1].id, found[n - 1].digest)
    }
}

fn index(found: &Vec<Hashed>) -> (r: HashMap<NodeId, [u8; 32]>)
    ensures
        r@ == digests_in(found@, found@.len() as int),
{
    let mut map: HashMap<NodeId, [u8; 32]> = HashMap::new();
    let mut i: usize = 0;
    proof {
        assert(map@ =~= digests_in(found@, 0));
    }
    while i < found.len()
        invariant
            i <= found@.len(),
            map@ == digests_in(found@, i as int),
        decreases found.len() - i,
    {
        map.insert(found[i].id, found[i].digest);
        i += 1;
    }
    map
}

/// Keep the files that a digest was found for.
pub open spec fn with_digest(ids: Seq<NodeId>, found: Map<NodeId, [u8; 32]>) -> spec_fn(
    int,
) -> bool {
    |i: int| found.dom().contains(ids[i])
}

pub open spec fn given(ids: Seq<NodeId>, found: Map<NodeId, [u8; 32]>) -> Seq<Hashed> {
    ids.map_values(|id: NodeId| Hashed { id, digest: found[id] })
}

/// The files that a digest was found for. One that cannot be read is one that cannot be proved to
/// be a duplicate, so it is left out rather than guessed at.
pub open spec fn sampled_of(ids: Seq<NodeId>, found: Map<NodeId, [u8; 32]>) -> Seq<Hashed> {
    picked(given(ids, found), with_digest(ids, found), ids.len() as int)
}

/// The files whose sample is that of another.
pub open spec fn survivors_of(sampled: Seq<Hashed>) -> Seq<Hashed> {
    picked(sampled, with_twins(sampled), sampled.len() as int)
}

/// Whether the sample of a file left something of it unread.
pub open spec fn is_part(nodes: Seq<Node>, id: NodeId) -> bool {
    nodes[id as int].apparent > 2 * SAMPLE
}

pub open spec fn parts_only(nodes: Seq<Node>, list: Seq<Hashed>) -> spec_fn(int) -> bool {
    |i: int| is_part(nodes, list[i].id)
}

/// The files that have to be read in full.
pub open spec fn needs_full(nodes: Seq<Node>, survivors: Seq<Hashed>) -> Seq<NodeId> {
    picked(ids_of(survivors), parts_only(nodes, survivors), survivors.len() as int)
}

/// Keep what has been read in full.
pub open spec fn with_whole(
    nodes: Seq<Node>,
    list: Seq<Hashed>,
    found: Map<NodeId, [u8; 32]>,
) -> spec_fn(int) -> bool {
    |i: int| is_part(nodes, list[i].id) ==> found.dom().contains(list[i].id)
}

pub open spec fn settled(
    nodes: Seq<Node>,
    list: Seq<Hashed>,
    found: Map<NodeId, [u8; 32]>,
) -> Seq<Hashed> {
    list.map_values(
        |h: Hashed|
            if is_part(nodes, h.id) {
                Hashed { id: h.id, digest: found[h.id] }
            } else {
                h
            },
    )
}

/// The files of which all was read, with the digests of that.
pub open spec fn confirmed_of(
    nodes: Seq<Node>,
    list: Seq<Hashed>,
    found: Map<NodeId, [u8; 32]>,
) -> Seq<Hashed> {
    picked(settled(nodes, list, found), with_whole(nodes, list, found), list.len() as int)
}

/// Largest first.
#[derive(Clone, Copy, PartialEq, Eq, Structural)]
pub struct Most {
    pub amount: u64,
}

impl Ranked for Most {
    open spec fn at_most(&self, other: &Self) -> bool {
        self.amount >= other.amount
    }

    proof fn total(a: &Self, b: &Self) {
    }

    proof fn transitive(a: &Self, b: &Self, c: &Self) {
    }

    fn is_at_most(&self, other: &Self) -> (r: bool) {
        self.amount >= other.amount
    }
}

/// What some files take up by themselves, the first `n` of them.
pub open spec fn disk_at(nodes: Seq<Node>, ids: Seq<NodeId>, n: int) -> nat
    decreases n,
{
    if n <= 0 {
        0
    } else {
        disk_at(nodes, ids, n - 1) + nodes[ids[n - 1] as int].disk as nat
    }
}

/// What all but the first of some copies give back, as far as the first `n` show.
pub open spec fn waste_of(nodes: Seq<Node>, ids: Seq<NodeId>, n: int) -> nat
    decreases n,
{
    if n <= 1 {
        0
    } else if nodes[ids[n - 1] as int].carries(flags::HARDLINK) {
        waste_of(nodes, ids, n - 1)
    } else {
        waste_of(nodes, ids, n - 1) + nodes[ids[n - 1] as int].disk as nat
    }
}

/// What the files among the first `n` nodes take up.
pub open spec fn file_disk(nodes: Seq<Node>, n: int) -> nat
    decreases n,
{
    if n <= 0 {
        0
    } else if nodes[n - 1].carries(flags::DIR) {
        file_disk(nodes, n - 1)
    } else {
        file_disk(nodes, n - 1) + nodes[n - 1].disk as nat
    }
}

/// Whether all the files in a tree together take up no more than a number can say.
pub open spec fn is_countable(nodes: Seq<Node>) -> bool {
    file_disk(nodes, nodes.len() as int) <= u64::MAX
}

pub open spec fn disk_keys(nodes: Seq<Node>, ids: Seq<NodeId>) -> Seq<Most> {
    ids.map_values(|id: NodeId| Most { amount: nodes[id as int].disk })
}

/// Things in the order given.
pub open spec fn arranged<T>(items: Seq<T>, p: Seq<int>) -> Seq<T> {
    p.map_values(|i: int| items[i])
}

/// The copies of one file as they are listed: the largest first, since the copy that is kept
/// should be the one that reclaims least by going.
pub open spec fn copies_of(nodes: Seq<Node>, ids: Seq<NodeId>) -> Seq<NodeId> {
    arranged(ids, order_of(disk_keys(nodes, ids)))
}

pub open spec fn group_note(nodes: Seq<Node>, ids: Seq<NodeId>) -> GroupNote {
    let copies = copies_of(nodes, ids);
    GroupNote {
        nodes: copies,
        size: nodes[copies[0] as int].apparent,
        wasted: waste_of(nodes, copies, copies.len() as int),
    }
}

/// The groups of files with the same digest.
pub open spec fn groups_in(nodes: Seq<Node>, list: Seq<Hashed>) -> Seq<GroupNote> {
    groups_of(list).map_values(|g: Seq<int>| group_note(nodes, arranged(ids_of(list), g)))
}

pub open spec fn waste_keys(groups: Seq<GroupNote>) -> Seq<Most> {
    groups.map_values(|g: GroupNote| Most { amount: g.wasted as u64 })
}

/// The groups of files with the same digest, largest waste first.
pub open spec fn ranked_groups(nodes: Seq<Node>, list: Seq<Hashed>) -> Seq<GroupNote> {
    let groups = groups_in(nodes, list);
    arranged(groups, order_of(waste_keys(groups)))
}

proof fn lemma_disk_frame(nodes: Seq<Node>, a: Seq<NodeId>, b: Seq<NodeId>, n: int)
    requires
        n <= a.len(),
        n <= b.len(),
        forall|i: int| 0 <= i < n ==> a[i] == b[i],
    ensures
        disk_at(nodes, a, n) == disk_at(nodes, b, n),
    decreases n,
{
    if n > 0 {
        lemma_disk_frame(nodes, a, b, n - 1);
    }
}

proof fn lemma_disk_remove(nodes: Seq<Node>, ids: Seq<NodeId>, k: int, n: int)
    requires
        0 <= k < n <= ids.len(),
    ensures
        disk_at(nodes, ids, n) == disk_at(nodes, ids.remove(k), n - 1)
            + nodes[ids[k] as int].disk,
    decreases n,
{
    if n == k + 1 {
        lemma_disk_frame(nodes, ids, ids.remove(k), k);
    } else {
        lemma_disk_remove(nodes, ids, k, n - 1);
    }
}

/// Different files take up no more than all files do.
proof fn lemma_files_fit(nodes: Seq<Node>, ids: Seq<NodeId>, m: int)
    requires
        0 <= m <= nodes.len(),
        ids.no_duplicates(),
        forall|i: int|
            0 <= i < ids.len() ==> (#[trigger] ids[i]) < m && !nodes[ids[i] as int].carries(
                flags::DIR,
            ),
    ensures
        disk_at(nodes, ids, ids.len() as int) <= file_disk(nodes, m),
    decreases m,
{
    if m > 0 {
        if exists|k: int| 0 <= k < ids.len() && #[trigger] ids[k] == m - 1 {
            let k = choose|k: int| 0 <= k < ids.len() && #[trigger] ids[k] == m - 1;
            let rest = ids.remove(k);
            lemma_disk_remove(nodes, ids, k, ids.len() as int);
            assert forall|i: int| 0 <= i < rest.len() implies (#[trigger] rest[i]) < m - 1
                && !nodes[rest[i] as int].carries(flags::DIR) by {
                let j = if i < k {
                    i
                } else {
                    i + 1
                };
                assert(rest[i] == ids[j]);
                assert(ids[j] != ids[k]);
            }
            assert forall|i: int, j: int|
                0 <= i < rest.len() && 0 <= j < rest.len() && i != j implies rest[i] != rest[j] by {
                let a = if i < k {
                    i
                } else {
                    i + 1
                };
                let b = if j < k {
                    j
                } else {
                    j + 1
                };
                assert(ids[a] != ids[b]);
            }
            lemma_files_fit(nodes, rest, m - 1);
        } else {
            assert forall|i: int| 0 <= i < ids.len() implies (#[trigger] ids[i]) < m - 1
                && !nodes[ids[i] as int].carries(flags::DIR) by {}
            lemma_files_fit(nodes, ids, m - 1);
        }
    }
}

proof fn lemma_waste_bound(nodes: Seq<Node>, ids: Seq<NodeId>, n: int)
    requires
        0 <= n <= ids.len(),
    ensures
        waste_of(nodes, ids, n) <= disk_at(nodes, ids, n),
    decreases n,
{
    if n > 0 {
        lemma_waste_bound(nodes, ids, n - 1);
    }
}

proof fn lemma_waste_grows(nodes: Seq<Node>, ids: Seq<NodeId>, i: int, j: int)
    requires
        0 <= i <= j,
    ensures
        waste_of(nodes, ids, i) <= waste_of(nodes, ids, j),
    decreases j - i,
{
    if i < j {
        lemma_waste_grows(nodes, ids, i, j - 1);
    }
}

/// Whether the sizes of the files in a tree can be added up. What a tree holds need not come from
/// a scan, so this is worth asking before a search.
pub fn can_count(tree: &Tree) -> (r: bool)
    ensures
        r == is_countable(tree.nodes()),
{
    let nodes = tree.raw_nodes();
    let mut sum: u64 = 0;
    let mut i: usize = 0;
    while i < nodes.len()
        invariant
            i <= nodes@.len(),
            nodes@ == tree.nodes(),
            sum == file_disk(nodes@, i as int),
        decreases nodes.len() - i,
    {
        if !nodes[i].is_dir() {
            if nodes[i].disk > u64::MAX - sum {
                proof {
                    lemma_file_disk_grows(nodes@, i + 1, nodes@.len() as int);
                }
                return false;
            }
            sum = sum + nodes[i].disk;
        }
        i += 1;
    }
    true
}

proof fn lemma_file_disk_grows(nodes: Seq<Node>, i: int, j: int)
    requires
        0 <= i <= j,
    ensures
        file_disk(nodes, i) <= file_disk(nodes, j),
    decreases j - i,
{
    if i < j {
        lemma_file_disk_grows(nodes, i, j - 1);
    }
}

/// The copies of one file, largest first.
fn copies(tree: &Tree, ids: &Vec<NodeId>) -> (r: Vec<NodeId>)
    requires
        forall|i: int| 0 <= i < ids@.len() ==> (#[trigger] ids@[i]) < tree.nodes().len(),
    ensures
        r@ == copies_of(tree.nodes(), ids@),
        r@.len() == ids@.len(),
        forall|i: int| 0 <= i < r@.len() ==> ids@.contains(#[trigger] r@[i]),
        ids@.no_duplicates() ==> r@.no_duplicates(),
{
    let mut keys: Vec<Most> = Vec::new();
    let mut i: usize = 0;
    while i < ids.len()
        invariant
            i <= ids@.len(),
            forall|i: int| 0 <= i < ids@.len() ==> (#[trigger] ids@[i]) < tree.nodes().len(),
            keys@.len() == i,
            forall|k: int| 0 <= k < i ==> #[trigger] keys@[k] == disk_keys(tree.nodes(), ids@)[k],
        decreases ids.len() - i,
    {
        keys.push(Most { amount: tree.node(ids[i]).disk });
        i += 1;
    }
    proof {
        assert(keys@ =~= disk_keys(tree.nodes(), ids@));
    }
    let order = stable_order(&keys);
    let ghost p = ints(order@);
    proof {
        lemma_order_of(keys@, p);
        lemma_order_distinct(keys@, p);
    }
    let mut out: Vec<NodeId> = Vec::new();
    i = 0;
    while i < order.len()
        invariant
            i <= order@.len(),
            order@.len() == ids@.len(),
            p == ints(order@),
            forall|k: int| 0 <= k < order@.len() ==> (#[trigger] order@[k]) < ids@.len(),
            out@.len() == i,
            forall|k: int| 0 <= k < i ==> #[trigger] out@[k] == ids@[p[k]],
        decreases order.len() - i,
    {
        out.push(ids[order[i]]);
        i += 1;
    }
    proof {
        assert(out@ =~= copies_of(tree.nodes(), ids@));
        assert forall|k: int| 0 <= k < out@.len() implies ids@.contains(#[trigger] out@[k]) by {
            assert(out@[k] == ids@[p[k]]);
        }
        if ids@.no_duplicates() {
            assert forall|a: int, b: int|
                0 <= a < out@.len() && 0 <= b < out@.len() && a != b implies out@[a] != out@[b] by {
                assert(p[a] != p[b]);
            }
        }
    }
    out
}

/// What is known of some copies of one file.
fn make_group(tree: &Tree, ids: &Vec<NodeId>) -> (r: DupGroup)
    requires
        ids@.len() > 0,
        ids@.no_duplicates(),
        forall|i: int|
            0 <= i < ids@.len() ==> (#[trigger] ids@[i]) < tree.nodes().len()
                && !tree.nodes()[ids@[i] as int].carries(flags::DIR),
        is_countable(tree.nodes()),
    ensures
        r@ == group_note(tree.nodes(), ids@),
{
    let nodes = copies(tree, ids);
    let ghost all = tree.nodes();
    proof {
        assert forall|i: int| 0 <= i < nodes@.len() implies (#[trigger] nodes@[i]) < all.len()
            && !all[nodes@[i] as int].carries(flags::DIR) by {
            assert(ids@.contains(nodes@[i]));
            let k = choose|k: int| 0 <= k < ids@.len() && ids@[k] == nodes@[i];
            assert(ids@[k] == nodes@[i]);
        }
        lemma_files_fit(all, nodes@, all.len() as int);
        lemma_waste_bound(all, nodes@, nodes@.len() as int);
    }
    let mut wasted: u64 = 0;
    let mut i: usize = 1;
    while i < nodes.len()
        invariant
            1 <= i <= nodes@.len(),
            all == tree.nodes(),
            forall|i: int| 0 <= i < nodes@.len() ==> (#[trigger] nodes@[i]) < all.len(),
            wasted == waste_of(all, nodes@, i as int),
            waste_of(all, nodes@, nodes@.len() as int) <= u64::MAX,
        decreases nodes.len() - i,
    {
        proof {
            lemma_waste_grows(all, nodes@, i + 1, nodes@.len() as int);
        }
        let node = tree.node(nodes[i]);
        if !node.has(flags::HARDLINK) {
            wasted = wasted + node.disk;
        }
        i += 1;
    }
    let size: u64 = tree.node(nodes[0]).apparent;
    DupGroup { nodes, size, wasted }
}

/// Collects files that share a digest, dropping anything left alone.
fn regroup(tree: &Tree, list: &Vec<Hashed>) -> (r: Vec<DupGroup>)
    requires
        are_files(tree.nodes(), ids_of(list@)),
        is_countable(tree.nodes()),
    ensures
        group_views(r@) == groups_in(tree.nodes(), list@),
{
    let groups = group(list);
    let ghost all = groups_of(list@);
    let ghost nodes = tree.nodes();
    let mut out: Vec<DupGroup> = Vec::new();
    let mut i: usize = 0;
    proof {
        assert(all.len() == groups@.len());
    }
    while i < groups.len()
        invariant
            i <= groups@.len(),
            all == groups_of(list@),
            all == groups@.map_values(|g: Vec<usize>| ints(g@)),
            is_order(list@, order_of(list@)),
            nodes == tree.nodes(),
            are_files(nodes, ids_of(list@)),
            is_countable(nodes),
            out@.len() == i,
            forall|k: int|
                0 <= k < i ==> (#[trigger] out@[k])@ == group_note(
                    nodes,
                    arranged(ids_of(list@), all[k]),
                ),
        decreases groups.len() - i,
    {
        let g = &groups[i];
        let ghost idx = all[i as int];
        proof {
            law_groups_are_alike(list@, i as int);
            assert(idx == ints(g@));
        }
        let mut ids: Vec<NodeId> = Vec::new();
        let mut k: usize = 0;
        while k < g.len()
            invariant
                k <= g@.len(),
                idx == ints(g@),
                forall|a: int| 0 <= a < idx.len() ==> 0 <= #[trigger] idx[a] < list@.len(),
                ids@.len() == k,
                forall|a: int| 0 <= a < k ==> #[trigger] ids@[a] == list@[idx[a]].id,
            decreases g.len() - k,
        {
            proof {
                assert(idx[k as int] == g@[k as int]);
            }
            ids.push(list[g[k]].id);
            k += 1;
        }
        proof {
            assert(ids@ =~= arranged(ids_of(list@), idx));
            assert forall|a: int, b: int|
                0 <= a < ids@.len() && 0 <= b < ids@.len() && a != b implies ids@[a] != ids@[b] by {
                assert(idx[a] != idx[b]);
                assert(ids_of(list@)[idx[a]] == ids@[a]);
                assert(ids_of(list@)[idx[b]] == ids@[b]);
            }
            assert forall|a: int| 0 <= a < ids@.len() implies (#[trigger] ids@[a]) < nodes.len()
                && !nodes[ids@[a] as int].carries(flags::DIR) by {
                assert(ids_of(list@)[idx[a]] == ids@[a]);
            }
        }
        out.push(make_group(tree, &ids));
        i += 1;
    }
    proof {
        assert(group_views(out@) =~= groups_in(nodes, list@));
    }
    out
}

/// The groups of files with the same digest, largest waste first.
pub fn ranked(tree: &Tree, list: &Vec<Hashed>) -> (r: Vec<DupGroup>)
    requires
        are_files(tree.nodes(), ids_of(list@)),
        is_countable(tree.nodes()),
    ensures
        group_views(r@) == ranked_groups(tree.nodes(), list@),
{
    let groups = regroup(tree, list);
    let ghost notes = groups_in(tree.nodes(), list@);
    let mut keys: Vec<Most> = Vec::new();
    let mut i: usize = 0;
    while i < groups.len()
        invariant
            i <= groups@.len(),
            group_views(groups@) == notes,
            keys@.len() == i,
            forall|k: int| 0 <= k < i ==> #[trigger] keys@[k] == waste_keys(notes)[k],
        decreases groups.len() - i,
    {
        proof {
            assert(notes[i as int] == groups@[i as int]@);
        }
        keys.push(Most { amount: groups[i].wasted });
        i += 1;
    }
    proof {
        assert(keys@ =~= waste_keys(notes));
    }
    let order = stable_order(&keys);
    let ghost p = ints(order@);
    proof {
        lemma_order_of(keys@, p);
    }
    let mut out: Vec<DupGroup> = Vec::new();
    i = 0;
    while i < order.len()
        invariant
            i <= order@.len(),
            order@.len() == groups@.len(),
            group_views(groups@) == notes,
            p == ints(order@),
            forall|k: int| 0 <= k < order@.len() ==> (#[trigger] order@[k]) < groups@.len(),
            out@.len() == i,
            forall|k: int| 0 <= k < i ==> (#[trigger] out@[k])@ == notes[p[k]],
        decreases order.len() - i,
    {
        let g = &groups[order[i]];
        proof {
            assert(notes[p[i as int]] == groups@[order@[i as int] as int]@);
        }
        let nodes = g.nodes.clone();
        proof {
            assert(nodes@ =~= g.nodes@);
        }
        out.push(DupGroup { nodes, size: g.size, wasted: g.wasted });
        i += 1;
    }
    proof {
        assert(group_views(out@) =~= ranked_groups(tree.nodes(), list@));
    }
    out
}

/// What a search asks for next.
#[derive(Debug)]
pub enum SearchAct {
    /// Hash these files, as many of them as can be read.
    Hash { ids: Vec<NodeId>, depth: Depth },
    /// Identical files, largest waste first.
    Over(Vec<DupGroup>),
}

/// The search for identical files: which files to hash, and what to make of the digests.
pub struct Search {
    /// The files that were asked to be hashed.
    pub candidates: Vec<NodeId>,
    /// The files whose samples agree with those of others.
    pub survivors: Vec<Hashed>,
}

impl Search {
    pub open spec fn wf(&self, nodes: Seq<Node>) -> bool {
        are_files(nodes, self.candidates@) && are_files(nodes, ids_of(self.survivors@))
    }

    pub fn begin(tree: &Tree, opts: &DupOptions) -> (r: (Search, SearchAct))
        requires
            tree.wf(),
        ensures
            r.0.wf(tree.nodes()),
            r.0.survivors@.len() == 0,
            r.0.candidates@ == same_sizes(tree.nodes(), opts.min_size),
            if r.0.candidates@.len() == 0 {
                r.1 matches SearchAct::Over(groups) && groups@.len() == 0
            } else {
                r.1 matches SearchAct::Hash { ids, depth } && ids@ == r.0.candidates@ && depth
                    == Depth::Ends
            },
    {
        let candidates = candidates_by_size(tree, opts);
        let survivors: Vec<Hashed> = Vec::new();
        proof {
            assert(ids_of(survivors@) =~= Seq::<NodeId>::empty());
        }
        if candidates.len() == 0 {
            return (Search { candidates, survivors }, SearchAct::Over(Vec::new()));
        }
        let ids = candidates.clone();
        proof {
            assert(ids@ =~= candidates@);
        }
        (Search { candidates, survivors }, SearchAct::Hash { ids, depth: Depth::Ends })
    }

    /// The ends of the candidates were read.
    pub fn sampled(&mut self, tree: &Tree, found: &Vec<Hashed>) -> (r: SearchAct)
        requires
            old(self).wf(tree.nodes()),
        ensures
            final(self).wf(tree.nodes()),
            final(self).candidates == old(self).candidates,
            final(self).survivors@ == survivors_of(
                sampled_of(old(self).candidates@, digests_in(found@, found@.len() as int)),
            ),
            if final(self).survivors@.len() == 0 {
                r matches SearchAct::Over(groups) && groups@.len() == 0
            } else {
                r matches SearchAct::Hash { ids, depth } && ids@ == needs_full(
                    tree.nodes(),
                    final(self).survivors@,
                ) && depth == Depth::Whole
            },
    {
        let map = index(found);
        let sampled = sampled_files(tree, &self.candidates, &map);
        let survivors = surviving(tree, &sampled);
        let ids = partly_read(tree, &survivors);
        let over = survivors.len() == 0;
        self.survivors = survivors;
        if over {
            SearchAct::Over(Vec::new())
        } else {
            SearchAct::Hash { ids, depth: Depth::Whole }
        }
    }

    /// What had to be read in full was. What could not be is left out.
    pub fn hashed(&self, tree: &Tree, found: &Vec<Hashed>) -> (r: Vec<DupGroup>)
        requires
            self.wf(tree.nodes()),
            is_countable(tree.nodes()),
        ensures
            group_views(r@) == ranked_groups(
                tree.nodes(),
                confirmed_of(
                    tree.nodes(),
                    self.survivors@,
                    digests_in(found@, found@.len() as int),
                ),
            ),
    {
        let map = index(found);
        let list = confirmed(tree, &self.survivors, &map);
        ranked(tree, &list)
    }
}

fn sampled_files(
    tree: &Tree,
    ids: &Vec<NodeId>,
    map: &HashMap<NodeId, [u8; 32]>,
) -> (r: Vec<Hashed>)
    requires
        are_files(tree.nodes(), ids@),
    ensures
        r@ == sampled_of(ids@, map@),
        are_files(tree.nodes(), ids_of(r@)),
{
    let ghost items = given(ids@, map@);
    let ghost keep = with_digest(ids@, map@);
    let mut out: Vec<Hashed> = Vec::new();
    let mut i: usize = 0;
    while i < ids.len()
        invariant
            i <= ids@.len(),
            items == given(ids@, map@),
            keep == with_digest(ids@, map@),
            out@ == picked(items, keep, i as int),
        decreases ids.len() - i,
    {
        let id: NodeId = ids[i];
        match map.get(&id) {
            Some(digest) => {
                out.push(Hashed { id, digest: *digest });
            },
            None => {},
        }
        i += 1;
    }
    proof {
        assert(ids_of(items) =~= ids@);
        lemma_list_are_files(tree.nodes(), items, keep, ids@.len() as int);
    }
    out
}

fn surviving(tree: &Tree, sampled: &Vec<Hashed>) -> (r: Vec<Hashed>)
    requires
        are_files(tree.nodes(), ids_of(sampled@)),
    ensures
        r@ == survivors_of(sampled@),
        are_files(tree.nodes(), ids_of(r@)),
{
    let marks = twins(sampled);
    let ghost keep = with_twins(sampled@);
    let mut out: Vec<Hashed> = Vec::new();
    let mut i: usize = 0;
    while i < sampled.len()
        invariant
            i <= sampled@.len(),
            keep == with_twins(sampled@),
            marks@.len() == sampled@.len(),
            forall|k: int| 0 <= k < marks@.len() ==> #[trigger] marks@[k] == has_twin(sampled@, k),
            out@ == picked(sampled@, keep, i as int),
        decreases sampled.len() - i,
    {
        if marks[i] {
            out.push(sampled[i]);
        }
        i += 1;
    }
    proof {
        lemma_list_are_files(tree.nodes(), sampled@, keep, sampled@.len() as int);
    }
    out
}

fn partly_read(tree: &Tree, survivors: &Vec<Hashed>) -> (r: Vec<NodeId>)
    requires
        are_files(tree.nodes(), ids_of(survivors@)),
    ensures
        r@ == needs_full(tree.nodes(), survivors@),
{
    let ghost keep = parts_only(tree.nodes(), survivors@);
    let mut out: Vec<NodeId> = Vec::new();
    let mut i: usize = 0;
    while i < survivors.len()
        invariant
            i <= survivors@.len(),
            are_files(tree.nodes(), ids_of(survivors@)),
            keep == parts_only(tree.nodes(), survivors@),
            out@ == picked(ids_of(survivors@), keep, i as int),
        decreases survivors.len() - i,
    {
        let id: NodeId = survivors[i].id;
        proof {
            assert(ids_of(survivors@)[i as int] == id);
        }
        if tree.node(id).apparent > 2 * SAMPLE {
            out.push(id);
        }
        i += 1;
    }
    out
}

fn confirmed(
    tree: &Tree,
    list: &Vec<Hashed>,
    map: &HashMap<NodeId, [u8; 32]>,
) -> (r: Vec<Hashed>)
    requires
        are_files(tree.nodes(), ids_of(list@)),
    ensures
        r@ == confirmed_of(tree.nodes(), list@, map@),
        are_files(tree.nodes(), ids_of(r@)),
{
    let ghost items = settled(tree.nodes(), list@, map@);
    let ghost keep = with_whole(tree.nodes(), list@, map@);
    let mut out: Vec<Hashed> = Vec::new();
    let mut i: usize = 0;
    while i < list.len()
        invariant
            i <= list@.len(),
            are_files(tree.nodes(), ids_of(list@)),
            items == settled(tree.nodes(), list@, map@),
            keep == with_whole(tree.nodes(), list@, map@),
            out@ == picked(items, keep, i as int),
        decreases list.len() - i,
    {
        let h: Hashed = list[i];
        proof {
            assert(ids_of(list@)[i as int] == h.id);
        }
        if tree.node(h.id).apparent > 2 * SAMPLE {
            match map.get(&h.id) {
                Some(digest) => {
                    out.push(Hashed { id: h.id, digest: *digest });
                },
                None => {},
            }
        } else {
            out.push(h);
        }
        i += 1;
    }
    proof {
        assert(ids_of(items) =~= ids_of(list@));
        lemma_list_are_files(tree.nodes(), items, keep, list@.len() as int);
    }
    out
}

/// Files are reported as copies of one another exactly when their digests are the same.
pub proof fn law_copies_share_a_digest(list: Seq<Hashed>, x: int, y: int)
    requires
        0 <= x < list.len(),
        0 <= y < list.len(),
        x != y,
    ensures
        (list[x].digest@ == list[y].digest@) == exists|i: int|
            0 <= i < groups_of(list).len() && (#[trigger] groups_of(list)[i]).contains(x)
                && groups_of(list)[i].contains(y),
{
    if list[x].digest@ == list[y].digest@ {
        lemma_bytes_total(list[x].digest@, list[y].digest@);
        assert(same_key(list, x, y));
        law_alike_are_grouped(list, x, y);
    }
    if exists|i: int|
        0 <= i < groups_of(list).len() && (#[trigger] groups_of(list)[i]).contains(x) && groups_of(
            list,
        )[i].contains(y) {
        let i = choose|i: int|
            0 <= i < groups_of(list).len() && (#[trigger] groups_of(list)[i]).contains(x)
                && groups_of(list)[i].contains(y);
        law_groups_are_alike(list, i);
        let g = groups_of(list)[i];
        let a = choose|a: int| 0 <= a < g.len() && g[a] == x;
        let b = choose|b: int| 0 <= b < g.len() && g[b] == y;
        assert(same_key(list, g[a], g[b]));
        lemma_bytes_total(list[x].digest@, list[y].digest@);
    }
}

/// The copy that is listed first, the one to keep, takes up the most.
pub proof fn law_largest_copy_comes_first(nodes: Seq<Node>, ids: Seq<NodeId>, i: int)
    requires
        0 <= i < copies_of(nodes, ids).len(),
    ensures
        nodes[copies_of(nodes, ids)[i] as int].disk <= nodes[copies_of(nodes, ids)[0] as int].disk,
{
    let keys = disk_keys(nodes, ids);
    let p = order_of(keys);
    lemma_order_exists(keys);
    if i > 0 {
        assert(comes_first(keys, p[0], p[i]));
    }
}

/// What removing all but the first copy of each of the first `n` groups gives back, read off the
/// nodes.
pub open spec fn given_back(nodes: Seq<Node>, groups: Seq<DupGroup>, n: int) -> nat
    decreases n,
{
    if n <= 0 {
        0
    } else {
        let copies = groups[n - 1].nodes@;
        given_back(nodes, groups, n - 1) + waste_of(nodes, copies, copies.len() as int)
    }
}

proof fn lemma_given_back(nodes: Seq<Node>, list: Seq<Hashed>, groups: Seq<DupGroup>, n: int)
    requires
        group_views(groups) == ranked_groups(nodes, list),
        0 <= n <= groups.len(),
    ensures
        wasted_by(groups, n) == given_back(nodes, groups, n),
    decreases n,
{
    if n > 0 {
        lemma_given_back(nodes, list, groups, n - 1);
        let all = groups_in(nodes, list);
        let p = order_of(waste_keys(all));
        lemma_order_exists(waste_keys(all));
        assert(group_views(groups).len() == groups.len());
        assert(ranked_groups(nodes, list).len() == p.len());
        assert(group_views(groups)[n - 1] == groups[n - 1]@);
        assert(ranked_groups(nodes, list)[n - 1] == all[p[n - 1]]);
        assert(0 <= p[n - 1] < all.len());
    }
}

/// What is said to be reclaimable in all is what the nodes say: in every group the first copy is
/// kept, and every other one counts what it takes up, unless further names point at it.
pub proof fn law_the_total_is_what_the_copies_take_up(
    nodes: Seq<Node>,
    list: Seq<Hashed>,
    groups: Seq<DupGroup>,
)
    requires
        group_views(groups) == ranked_groups(nodes, list),
    ensures
        wasted_by(groups, groups.len() as int) == given_back(nodes, groups, groups.len() as int),
        groups.len() == 0 ==> wasted_by(groups, 0) == 0,
{
    lemma_given_back(nodes, list, groups, groups.len() as int);
}

/// A copy that other names still point at gives nothing back: whatever its size, it adds nothing
/// to what a group is said to waste.
pub proof fn law_hardlinked_copies_free_nothing(nodes: Seq<Node>, ids: Seq<NodeId>, k: int)
    requires
        0 <= k < ids.len(),
        nodes[ids[k] as int].carries(flags::HARDLINK),
    ensures
        waste_of(nodes, ids, k + 1) == waste_of(nodes, ids, k),
{
}

} // verus!
