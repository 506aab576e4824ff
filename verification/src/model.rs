//! The in-memory directory tree.
//!
//! Nodes live in one flat arena and refer to each other by index, and every name lives in a single
//! byte buffer. A node is exactly 48 bytes with no padding, which is what makes it practical to
//! hold a tree with millions of entries in memory while browsing it.

pub mod flags;
pub mod grow;
pub mod own;
pub mod told;

use vstd::prelude::*;

use crate::path::{join, joined};
use crate::text::{cat3, copy_bytes, dec, decimal};

verus! {

/// Index of a node in a tree's arena.
pub type NodeId = u32;

/// The root of every tree.
pub const ROOT: NodeId = 0;

/// Stands for "no such node": the end of a sibling chain, the parent of the root.
pub const NO_NODE: NodeId = 0xffff_ffff;

/// The longest name a node can carry.
pub const MAX_NAME: usize = 65535;

/// What kind of thing a directory entry is.
#[derive(Clone, Copy, Debug, PartialEq, Eq, Structural)]
pub enum Kind {
    Dir,
    File,
    Symlink,
    Other,
}

impl Kind {
    pub open spec fn as_flags(self) -> u16 {
        match self {
            Kind::Dir => flags::DIR,
            Kind::File => 0,
            Kind::Symlink => flags::SYMLINK,
            Kind::Other => flags::OTHER,
        }
    }

    pub fn to_flags(self) -> (r: u16)
        ensures
            r == self.as_flags(),
    {
        match self {
            Kind::Dir => flags::DIR,
            Kind::File => 0,
            Kind::Symlink => flags::SYMLINK,
            Kind::Other => flags::OTHER,
        }
    }
}

/// Everything learned about an entry from a single stat.
#[derive(Clone, Copy, Debug, PartialEq, Eq, Structural)]
pub struct Meta {
    pub kind: Kind,
    /// The size the file claims to be.
    pub apparent: u64,
    /// The space it actually occupies. This is the number that matters when freeing space, and it
    /// differs from `apparent` for sparse and compressed files as well as for tiny files rounded
    /// up to a block.
    pub disk: u64,
    pub mtime: i64,
    pub dev: u64,
    pub ino: u64,
    pub nlink: u64,
}

impl Meta {
    pub open spec fn spec_unknown(kind: Kind) -> Meta {
        Meta { kind, apparent: 0, disk: 0, mtime: 0, dev: 0, ino: 0, nlink: 1 }
    }

    /// Placeholder for an entry that could not be stat'd.
    pub fn unknown(kind: Kind) -> (r: Self)
        ensures
            r == Self::spec_unknown(kind),
    {
        Meta { kind, apparent: 0, disk: 0, mtime: 0, dev: 0, ino: 0, nlink: 1 }
    }
}

/// One entry in the tree. Field order is chosen so this packs to exactly 48 bytes.
#[derive(Clone, Copy, Debug, PartialEq, Eq, Structural)]
pub struct Node {
    /// Apparent size of this node's whole subtree, including itself.
    pub apparent: u64,
    /// Disk usage of this node's whole subtree, including itself, with hardlinks counted once.
    pub disk: u64,
    pub mtime: i64,
    pub parent: NodeId,
    pub first_child: NodeId,
    pub next_sibling: NodeId,
    /// Number of entries in this subtree, excluding the node itself.
    pub items: u32,
    pub name_off: u32,
    pub name_len: u16,
    pub flags: u16,
}

pub open spec fn flag_set(flags: u16, flag: u16) -> bool {
    flags & flag != 0
}

impl Node {
    pub open spec fn carries(&self, flag: u16) -> bool {
        flag_set(self.flags, flag)
    }

    pub fn is_dir(&self) -> (r: bool)
        ensures
            r == self.carries(flags::DIR),
    {
        self.flags & flags::DIR != 0
    }

    pub fn has(&self, flag: u16) -> (r: bool)
        ensures
            r == self.carries(flag),
    {
        self.flags & flag != 0
    }
}

/// The first of a chain of siblings.
pub open spec fn head(chain: Seq<NodeId>) -> NodeId {
    if chain.len() > 0 {
        chain[0]
    } else {
        NO_NODE
    }
}

/// What follows position `j` in a chain of siblings.
pub open spec fn after(chain: Seq<NodeId>, j: int) -> NodeId {
    if j + 1 < chain.len() {
        chain[j + 1]
    } else {
        NO_NODE
    }
}

/// Whether the links of `nodes` describe one tree in which node `i` has the children `kids[i]`,
/// in that order. A node always comes after its parent.
pub open spec fn linked(nodes: Seq<Node>, kids: Seq<Seq<NodeId>>) -> bool {
    &&& kids.len() == nodes.len()
    &&& 0 < nodes.len() <= NO_NODE
    &&& nodes[0].parent == NO_NODE
    &&& nodes[0].next_sibling == NO_NODE
    &&& forall|i: int| 0 < i < nodes.len() ==> (#[trigger] nodes[i]).parent < i
    &&& forall|i: int| 0 <= i < nodes.len() ==> (#[trigger] nodes[i]).first_child == head(kids[i])
    &&& forall|i: int| 0 <= i < kids.len() ==> (#[trigger] kids[i]).no_duplicates()
    &&& forall|i: int, j: int|
        0 <= i < kids.len() && 0 <= j < kids[i].len() ==> is_kid(nodes, #[trigger] kids[i][j], i)
    &&& forall|i: int, j: int|
        0 <= i < kids.len() && 0 <= j < kids[i].len() ==> nodes[kids[i][j] as int].next_sibling
            == #[trigger] after(kids[i], j)
    &&& forall|c: int| 0 < c < nodes.len() ==> #[trigger] is_listed(nodes, kids, c)
}

/// Whether `c` is among the children of its parent.
pub open spec fn is_listed(nodes: Seq<Node>, kids: Seq<Seq<NodeId>>, c: int) -> bool {
    kids[nodes[c].parent as int].contains(c as NodeId)
}

pub open spec fn is_kid(nodes: Seq<Node>, c: NodeId, i: int) -> bool {
    0 < c < nodes.len() && nodes[c as int].parent == i
}

/// Whether every node's name lies in the name buffer.
pub open spec fn named(nodes: Seq<Node>, names: Seq<u8>) -> bool {
    forall|i: int|
        0 <= i < nodes.len() ==> (#[trigger] nodes[i]).name_off + nodes[i].name_len <= names.len()
}

/// Whether `a` is `d` or one of its ancestors.
pub open spec fn is_above(nodes: Seq<Node>, a: int, d: int) -> bool
    decreases d,
{
    a == d || (0 < d < nodes.len() && nodes[d].parent < d && is_above(
        nodes,
        a,
        nodes[d].parent as int,
    ))
}

/// The name of node `i`.
pub open spec fn name_of(nodes: Seq<Node>, names: Seq<u8>, i: int) -> Seq<u8> {
    names.subrange(nodes[i].name_off as int, nodes[i].name_off + nodes[i].name_len)
}

/// The path of node `i`: the chain of names from the root down to it.
pub open spec fn path_to(nodes: Seq<Node>, names: Seq<u8>, root: Seq<u8>, i: int) -> Seq<u8>
    decreases i,
{
    if 0 < i < nodes.len() && nodes[i].parent < i {
        joined(path_to(nodes, names, root, nodes[i].parent as int), name_of(nodes, names, i))
    } else {
        root
    }
}

/// What of a name is kept.
pub open spec fn clipped(name: Seq<u8>) -> Seq<u8> {
    if name.len() <= MAX_NAME {
        name
    } else {
        name.take(MAX_NAME as int)
    }
}

/// The nodes after `fresh` has been put first among its parent's children and its weight has been
/// added to every node above it.
pub open spec fn with_child(nodes: Seq<Node>, fresh: Node) -> Seq<Node> {
    Seq::new(
        nodes.len() + 1,
        |i: int|
            if i < nodes.len() {
                weighed(nodes, fresh, i)
            } else {
                fresh
            },
    )
}

/// Node `i` once `fresh` is below its parent.
pub open spec fn weighed(nodes: Seq<Node>, fresh: Node, i: int) -> Node {
    let linked_in = if i == fresh.parent {
        Node { first_child: nodes.len() as NodeId, ..nodes[i] }
    } else {
        nodes[i]
    };
    if is_above(nodes, i, fresh.parent as int) {
        Node {
            apparent: (nodes[i].apparent + fresh.apparent) as u64,
            disk: (nodes[i].disk + fresh.disk) as u64,
            items: (nodes[i].items + 1) as u32,
            ..linked_in
        }
    } else {
        linked_in
    }
}

/// Whether the totals above `parent` can take this much more.
pub open spec fn can_carry(nodes: Seq<Node>, parent: int, apparent: u64, disk: u64) -> bool {
    forall|a: int|
        0 <= a < nodes.len() && #[trigger] is_above(nodes, a, parent) ==> nodes[a].apparent
            + apparent <= u64::MAX && nodes[a].disk + disk <= u64::MAX && nodes[a].items < u32::MAX
}

/// The sum of the weights of the first `n` nodes that lie at or below `a`.
pub open spec fn weight_below(nodes: Seq<Node>, w: Seq<nat>, a: int, n: int) -> nat
    decreases n,
{
    if n <= 0 {
        0
    } else if is_above(nodes, a, n - 1) {
        weight_below(nodes, w, a, n - 1) + w[n - 1]
    } else {
        weight_below(nodes, w, a, n - 1)
    }
}

/// Weights of one each.
pub open spec fn ones(n: nat) -> Seq<nat> {
    Seq::new(n, |i: int| 1nat)
}

/// Whether every node's totals are the sums of the weights at and below it, where `wa` and `wd`
/// are what each node weighs by itself, and `items` counts what is below it.
pub open spec fn accounted(nodes: Seq<Node>, wa: Seq<nat>, wd: Seq<nat>) -> bool {
    &&& wa.len() == nodes.len()
    &&& wd.len() == nodes.len()
    &&& forall|a: int|
        0 <= a < nodes.len() ==> {
            &&& (#[trigger] nodes[a]).apparent == weight_below(nodes, wa, a, nodes.len() as int)
            &&& nodes[a].disk == weight_below(nodes, wd, a, nodes.len() as int)
            &&& nodes[a].items + 1 == weight_below(
                nodes,
                ones(nodes.len()),
                a,
                nodes.len() as int,
            )
        }
}

/// Whether every chain of siblings runs from the newest child to the oldest.
pub open spec fn newest_first(kids: Seq<Seq<NodeId>>) -> bool {
    forall|i: int, j: int, k: int|
        0 <= i < kids.len() && 0 <= j < k < kids[i].len() ==> #[trigger] kids[i][j]
            > #[trigger] kids[i][k]
}

/// Whether every chain of siblings runs in the order the children were added.
pub open spec fn oldest_first(kids: Seq<Seq<NodeId>>) -> bool {
    forall|i: int, j: int, k: int|
        0 <= i < kids.len() && 0 <= j < k < kids[i].len() ==> #[trigger] kids[i][j]
            < #[trigger] kids[i][k]
}

/// A scanned directory tree.
pub struct Tree {
    nodes: Vec<Node>,
    names: Vec<u8>,
    root_path: Vec<u8>,
    kids: Ghost<Seq<Seq<NodeId>>>,
    /// Entries that could not be read or stat'd.
    pub errors: u64,
    /// Whether the scan was stopped before it was done, so that the tree is only a part.
    pub cancelled: bool,
}

impl Tree {
    pub closed spec fn nodes(&self) -> Seq<Node> {
        self.nodes@
    }

    pub closed spec fn names(&self) -> Seq<u8> {
        self.names@
    }

    pub closed spec fn root(&self) -> Seq<u8> {
        self.root_path@
    }

    /// The children of each node, in order.
    pub closed spec fn kids(&self) -> Seq<Seq<NodeId>> {
        self.kids@
    }

    /// How many entries could not be read or stat'd.
    pub closed spec fn missed(&self) -> u64 {
        self.errors
    }

    /// Whether the scan that made this tree was stopped early.
    pub closed spec fn partial(&self) -> bool {
        self.cancelled
    }

    pub open spec fn wf(&self) -> bool {
        &&& linked(self.nodes(), self.kids())
        &&& named(self.nodes(), self.names())
    }

    pub open spec fn holds(&self, id: NodeId) -> bool {
        id < self.nodes().len()
    }

    pub open spec fn spec_name(&self, id: NodeId) -> Seq<u8> {
        name_of(self.nodes(), self.names(), id as int)
    }

    pub open spec fn spec_path(&self, id: NodeId) -> Seq<u8> {
        path_to(self.nodes(), self.names(), self.root(), id as int)
    }

    /// Whether there is room for one more node with this name.
    pub open spec fn has_room(&self, name: Seq<u8>) -> bool {
        &&& self.nodes().len() < NO_NODE
        &&& self.names().len() + clipped(name).len() <= u32::MAX
    }

    /// Create a tree containing only its root.
    pub fn new(root_path: Vec<u8>, meta: &Meta) -> (r: Self)
        ensures
            r.wf(),
            r.nodes() == seq![
                Node {
                    apparent: meta.apparent,
                    disk: meta.disk,
                    mtime: meta.mtime,
                    parent: NO_NODE,
                    first_child: NO_NODE,
                    next_sibling: NO_NODE,
                    items: 0,
                    name_off: 0,
                    name_len: 0,
                    flags: meta.kind.as_flags(),
                },
            ],
            r.names() == Seq::<u8>::empty(),
            r.kids() == seq![Seq::<NodeId>::empty()],
            r.root() == root_path@,
            r.missed() == 0,
            !r.partial(),
            accounted(r.nodes(), seq![meta.apparent as nat], seq![meta.disk as nat]),
            newest_first(r.kids()),
    {
        let mut nodes: Vec<Node> = Vec::new();
        nodes.push(
            Node {
                apparent: meta.apparent,
                disk: meta.disk,
                mtime: meta.mtime,
                parent: NO_NODE,
                first_child: NO_NODE,
                next_sibling: NO_NODE,
                items: 0,
                name_off: 0,
                name_len: 0,
                flags: meta.kind.to_flags(),
            },
        );
        let ghost none = seq![Seq::<NodeId>::empty()];
        let tree = Tree {
            nodes,
            names: Vec::new(),
            root_path,
            kids: Ghost(none),
            errors: 0,
            cancelled: false,
        };
        proof {
            let wa = seq![meta.apparent as nat];
            let wd = seq![meta.disk as nat];
            let n = tree.nodes@;
            reveal_with_fuel(weight_below, 2);
            assert(is_above(n, 0, 0));
            assert(weight_below(n, wa, 0, 1) == wa[0]);
            assert(weight_below(n, wd, 0, 1) == wd[0]);
            assert(weight_below(n, ones(1), 0, 1) == 1);
        }
        tree
    }

    fn intern(&mut self, name: &[u8]) -> (r: (u32, u16))
        requires
            old(self).names().len() + clipped(name@).len() <= u32::MAX,
        ensures
            r.0 == old(self).names().len(),
            r.1 == clipped(name@).len(),
            final(self).names() == old(self).names() + clipped(name@),
            final(self).nodes() == old(self).nodes(),
            final(self).kids() == old(self).kids(),
            final(self).root() == old(self).root(),
            final(self).missed() == old(self).missed(),
            final(self).partial() == old(self).partial(),
    {
        let off: u32 = self.names.len() as u32;
        let len: usize = if name.len() > MAX_NAME {
            MAX_NAME
        } else {
            name.len()
        };
        self.names.extend_from_slice(&name[0..len]);
        proof {
            assert(self.names@ =~= old(self).names@ + clipped(name@));
        }
        (off, len as u16)
    }

    /// Add a child under `parent` and propagate its size up to every ancestor.
    ///
    /// `counted` is false for entries whose blocks are already accounted for elsewhere (hardlink
    /// duplicates) or unknown (stat errors); such nodes still appear in the tree but add nothing
    /// to the totals.
    pub fn push_child(
        &mut self,
        parent: NodeId,
        name: &[u8],
        meta: &Meta,
        extra_flags: u16,
        counted: bool,
    ) -> (id: NodeId)
        requires
            old(self).wf(),
            old(self).holds(parent),
            old(self).has_room(name@),
            can_carry(
                old(self).nodes(),
                parent as int,
                if counted {
                    meta.apparent
                } else {
                    0
                },
                if counted {
                    meta.disk
                } else {
                    0
                },
            ),
        ensures
            final(self).wf(),
            id == old(self).nodes().len(),
            final(self).nodes() == with_child(
                old(self).nodes(),
                Node {
                    apparent: if counted {
                        meta.apparent
                    } else {
                        0
                    },
                    disk: if counted {
                        meta.disk
                    } else {
                        0
                    },
                    mtime: meta.mtime,
                    parent,
                    first_child: NO_NODE,
                    next_sibling: head(old(self).kids()[parent as int]),
                    items: 0,
                    name_off: old(self).names().len() as u32,
                    name_len: clipped(name@).len() as u16,
                    flags: meta.kind.as_flags() | extra_flags,
                },
            ),
            final(self).names() == old(self).names() + clipped(name@),
            final(self).kids() == old(self).kids().update(
                parent as int,
                seq![id] + old(self).kids()[parent as int],
            ).push(Seq::empty()),
            final(self).root() == old(self).root(),
            final(self).missed() == old(self).missed(),
            final(self).partial() == old(self).partial(),
            final(self).spec_name(id) == clipped(name@),
            forall|i: NodeId|
                i < id ==> #[trigger] final(self).spec_name(i) == old(self).spec_name(i),
            newest_first(old(self).kids()) ==> newest_first(final(self).kids()),
            forall|wa: Seq<nat>, wd: Seq<nat>| #[trigger]
                accounted(old(self).nodes(), wa, wd) ==> accounted(
                    final(self).nodes(),
                    wa.push(
                        if counted {
                            meta.apparent as nat
                        } else {
                            0
                        },
                    ),
                    wd.push(
                        if counted {
                            meta.disk as nat
                        } else {
                            0
                        },
                    ),
                ),
    {
        let ghost start = self.nodes@;
        let ghost names = self.names@;
        let (name_off, name_len) = self.intern(name);
        let id: NodeId = self.nodes.len() as NodeId;
        let (apparent, disk): (u64, u64) = if counted {
            (meta.apparent, meta.disk)
        } else {
            (0, 0)
        };
        let fresh = Node {
            apparent,
            disk,
            mtime: meta.mtime,
            parent,
            first_child: NO_NODE,
            next_sibling: self.nodes[parent as usize].first_child,
            items: 0,
            name_off,
            name_len,
            flags: meta.kind.to_flags() | extra_flags,
        };
        self.nodes.push(fresh);
        let mut above = self.nodes[parent as usize];
        above.first_child = id;
        self.nodes.set(parent as usize, above);

        let mut cur: NodeId = parent;
        while cur != NO_NODE
            invariant
                linked(start, old(self).kids()),
                start == old(self).nodes(),
                start.len() < NO_NODE,
                id == start.len(),
                fresh.parent == parent,
                fresh.apparent == apparent,
                fresh.disk == disk,
                parent < start.len(),
                can_carry(start, parent as int, apparent, disk),
                self.nodes@.len() == start.len() + 1,
                self.nodes@[id as int] == fresh,
                cur == NO_NODE || cur < start.len(),
                cur != NO_NODE ==> is_above(start, cur as int, parent as int),
                forall|i: int|
                    0 <= i < start.len() ==> #[trigger] self.nodes@[i] == (if cur != NO_NODE
                        && is_above(start, i, cur as int) {
                        Node {
                            first_child: if i == parent {
                                id
                            } else {
                                start[i].first_child
                            },
                            ..start[i]
                        }
                    } else {
                        weighed(start, fresh, i)
                    }),
                self.names@ == names + clipped(name@),
                self.root_path@ == old(self).root_path@,
                self.kids == old(self).kids,
                self.errors == old(self).errors,
                self.cancelled == old(self).cancelled,
            decreases
                    if cur == NO_NODE {
                        0
                    } else {
                        cur + 1
                    },
        {
            proof {
                lemma_above_linear(start, cur as int);
            }
            let ghost here = cur;
            let mut n = self.nodes[cur as usize];
            n.apparent = n.apparent + apparent;
            n.disk = n.disk + disk;
            n.items = n.items + 1;
            self.nodes.set(cur as usize, n);
            cur = n.parent;
            proof {
                if cur != NO_NODE {
                    lemma_above_up(start, here as int, parent as int);
                }
                assert forall|i: int| 0 <= i < start.len() implies #[trigger] self.nodes@[i] == (
                if cur != NO_NODE && is_above(start, i, cur as int) {
                    Node {
                        first_child: if i == parent {
                            id
                        } else {
                            start[i].first_child
                        },
                        ..start[i]
                    }
                } else {
                    weighed(start, fresh, i)
                }) by {
                    if i == here {
                        if cur != NO_NODE {
                            lemma_above_le(start, here as int, cur as int);
                        }
                    } else {
                        assert(is_above(start, i, here as int) == (cur != NO_NODE && is_above(
                            start,
                            i,
                            cur as int,
                        )));
                    }
                }
            }
        }
        proof {
            assert(self.nodes@ =~= with_child(start, fresh));
            let kids = self.kids@;
            let grown = kids.update(parent as int, seq![id] + kids[parent as int]).push(
                Seq::empty(),
            );
            lemma_linked_push(start, kids, fresh);
            self.kids@ = grown;
            assert(self.names@.subrange(name_off as int, name_off + name_len) =~= clipped(name@));
            assert forall|i: NodeId| i < id implies #[trigger] self.spec_name(i)
                == old(self).spec_name(i) by {
                assert(start[i as int].name_off + start[i as int].name_len <= names.len());
                assert(self.spec_name(i) =~= old(self).spec_name(i));
            }
            assert forall|wa: Seq<nat>, wd: Seq<nat>| #[trigger]
                accounted(start, wa, wd) implies accounted(
                self.nodes@,
                wa.push(apparent as nat),
                wd.push(disk as nat),
            ) by {
                lemma_accounted_push(start, kids, fresh, wa, wd);
            }
        }
        id
    }

    /// Turns the chain of children of `i` round.
    fn reverse_chain(&mut self, i: usize)
        requires
            old(self).wf(),
            i < old(self).nodes().len(),
        ensures
            final(self).wf(),
            final(self).kids() == old(self).kids().update(
                i as int,
                old(self).kids()[i as int].reverse(),
            ),
            final(self).nodes().len() == old(self).nodes().len(),
            forall|k: int|
                0 <= k < old(self).nodes().len() ==> same_but_links(
                    old(self).nodes()[k],
                    #[trigger] final(self).nodes()[k],
                ),
            final(self).names() == old(self).names(),
            final(self).root() == old(self).root(),
            final(self).missed() == old(self).missed(),
            final(self).partial() == old(self).partial(),
    {
        let ghost start = self.nodes@;
        let ghost chain = self.kids@[i as int];
        let ghost kids = self.kids@;
        let ghost mut j: int = 0;
        let mut prev: NodeId = NO_NODE;
        let mut cur: NodeId = self.nodes[i].first_child;
        while cur != NO_NODE
            invariant
                linked(start, kids),
                i < start.len(),
                chain == kids[i as int],
                0 <= j <= chain.len(),
                cur == (if j < chain.len() {
                    chain[j]
                } else {
                    NO_NODE
                }),
                prev == (if j > 0 {
                    chain[j - 1]
                } else {
                    NO_NODE
                }),
                self.nodes@.len() == start.len(),
                forall|k: int|
                    0 <= k < start.len() ==> {
                        &&& same_but_links(start[k], #[trigger] self.nodes@[k])
                        &&& self.nodes@[k].first_child == start[k].first_child
                        &&& start[k].parent != i || k == 0 ==> self.nodes@[k].next_sibling
                            == start[k].next_sibling
                    },
                forall|x: int|
                    0 <= x < j ==> self.nodes@[#[trigger] chain[x] as int].next_sibling == (if x
                        > 0 {
                        chain[x - 1]
                    } else {
                        NO_NODE
                    }),
                forall|x: int|
                    j <= x < chain.len() ==> self.nodes@[#[trigger] chain[x] as int].next_sibling
                        == start[chain[x] as int].next_sibling,
                self.names@ == old(self).names@,
                self.root_path@ == old(self).root_path@,
                self.kids@ == kids,
                self.errors == old(self).errors,
                self.cancelled == old(self).cancelled,
            decreases chain.len() - j,
        {
            proof {
                assert(is_kid(start, kids[i as int][j], i as int));
                assert(start[chain[j] as int].next_sibling == after(kids[i as int], j));
            }
            let ghost here = self.nodes@;
            let mut n = self.nodes[cur as usize];
            let next: NodeId = n.next_sibling;
            n.next_sibling = prev;
            self.nodes.set(cur as usize, n);
            prev = cur;
            cur = next;
            proof {
                assert forall|x: int| 0 <= x < chain.len() && x != j implies self.nodes@[
                #[trigger] chain[x] as int] == here[chain[x] as int] by {
                    assert(chain[x] != chain[j]);
                }
                j = j + 1;
            }
        }
        let mut n = self.nodes[i];
        n.first_child = prev;
        self.nodes.set(i, n);
        proof {
            let turned = chain.reverse();
            let now = kids.update(i as int, turned);
            self.kids@ = now;
            lemma_linked_reverse(start, kids, i as int, self.nodes@);
        }
    }

    /// Reverse every sibling chain so children come back in the order they were pushed.
    ///
    /// Children are prepended during the scan, which leaves each chain reversed. Call this once
    /// when the scan finishes.
    pub fn finish(&mut self)
        requires
            old(self).wf(),
        ensures
            final(self).wf(),
            final(self).kids() == turned(old(self).kids()),
            final(self).nodes().len() == old(self).nodes().len(),
            forall|k: int|
                0 <= k < old(self).nodes().len() ==> same_but_links(
                    old(self).nodes()[k],
                    #[trigger] final(self).nodes()[k],
                ),
            final(self).names() == old(self).names(),
            final(self).root() == old(self).root(),
            final(self).missed() == old(self).missed(),
            final(self).partial() == old(self).partial(),
            newest_first(old(self).kids()) ==> oldest_first(final(self).kids()),
    {
        let ghost before = self.kids();
        let mut i: usize = 0;
        while i < self.nodes.len()
            invariant
                self.wf(),
                before == old(self).kids(),
                i <= self.nodes@.len(),
                self.nodes@.len() == before.len(),
                self.nodes@.len() == old(self).nodes@.len(),
                forall|k: int|
                    0 <= k < before.len() ==> #[trigger] self.kids@[k] == (if k < i {
                        before[k].reverse()
                    } else {
                        before[k]
                    }),
                forall|k: int|
                    0 <= k < before.len() ==> same_but_links(
                        old(self).nodes@[k],
                        #[trigger] self.nodes@[k],
                    ),
                self.names@ == old(self).names@,
                self.root_path@ == old(self).root_path@,
                self.errors == old(self).errors,
                self.cancelled == old(self).cancelled,
            decreases before.len() - i,
        {
            self.reverse_chain(i);
            i += 1;
        }
        proof {
            assert(self.kids@ =~= turned(before));
        }
    }

    pub fn node(&self, id: NodeId) -> (r: &Node)
        requires
            self.holds(id),
        ensures
            *r == self.nodes()[id as int],
    {
        &self.nodes[id as usize]
    }

    pub fn add_flags(&mut self, id: NodeId, flags: u16)
        requires
            old(self).wf(),
            old(self).holds(id),
        ensures
            final(self).wf(),
            final(self).nodes() == old(self).nodes().update(
                id as int,
                Node {
                    flags: old(self).nodes()[id as int].flags | flags,
                    ..old(self).nodes()[id as int]
                },
            ),
            final(self).names() == old(self).names(),
            final(self).kids() == old(self).kids(),
            final(self).root() == old(self).root(),
            final(self).missed() == old(self).missed(),
            final(self).partial() == old(self).partial(),
    {
        let ghost before = self.nodes@;
        let mut n = self.nodes[id as usize];
        n.flags = n.flags | flags;
        self.nodes.set(id as usize, n);
        proof {
            lemma_linked_frame(before, self.nodes@, self.kids@);
        }
    }

    /// Counts `n` more entries that could not be read.
    pub fn add_errors(&mut self, n: u64)
        requires
            old(self).missed() + n <= u64::MAX,
        ensures
            final(self).missed() == old(self).missed() + n,
            final(self).nodes() == old(self).nodes(),
            final(self).names() == old(self).names(),
            final(self).kids() == old(self).kids(),
            final(self).root() == old(self).root(),
            final(self).partial() == old(self).partial(),
    {
        self.errors = self.errors + n;
    }

    /// Marks the tree as only a part of what a whole scan would have found.
    pub fn mark_cancelled(&mut self)
        ensures
            final(self).partial(),
            final(self).missed() == old(self).missed(),
            final(self).nodes() == old(self).nodes(),
            final(self).names() == old(self).names(),
            final(self).kids() == old(self).kids(),
            final(self).root() == old(self).root(),
    {
        self.cancelled = true;
    }

    pub fn error_count(&self) -> (r: u64)
        ensures
            r == self.missed(),
    {
        self.errors
    }

    pub fn is_cancelled(&self) -> (r: bool)
        ensures
            r == self.partial(),
    {
        self.cancelled
    }

    pub fn len(&self) -> (r: usize)
        ensures
            r == self.nodes().len(),
    {
        self.nodes.len()
    }

    pub fn is_empty(&self) -> (r: bool)
        ensures
            r == (self.nodes().len() == 0),
    {
        self.nodes.len() == 0
    }

    pub fn root_path(&self) -> (r: &[u8])
        ensures
            r@ == self.root(),
    {
        self.root_path.as_slice()
    }

    pub fn name(&self, id: NodeId) -> (r: &[u8])
        requires
            self.wf(),
            self.holds(id),
        ensures
            r@ == self.spec_name(id),
    {
        let n = &self.nodes[id as usize];
        proof {
            assert(self.nodes()[id as int] == *n);
            assert(self.names.len() == self.names@.len());
        }
        let start: usize = n.name_off as usize;
        &self.names.as_slice()[start..start + n.name_len as usize]
    }

    /// Every node, in the order they were added.
    pub fn raw_nodes(&self) -> (r: &Vec<Node>)
        ensures
            r@ == self.nodes(),
    {
        &self.nodes
    }

    /// The buffer that holds every name.
    pub fn raw_names(&self) -> (r: &Vec<u8>)
        ensures
            r@ == self.names(),
    {
        &self.names
    }

    /// Bytes used by the arena itself, for reporting: at least what the nodes and the names take.
    /// How much more the buffers hold in reserve is up to the allocator.
    pub fn memory_bytes(&self) -> (r: usize)
        ensures
            r as int >= 48 * self.nodes().len() + self.names().len() || r == usize::MAX,
    {
        let nodes: usize = capacity(&self.nodes);
        let names: usize = capacity(&self.names);
        match nodes.checked_mul(48) {
            Some(bytes) => bytes.saturating_add(names),
            None => usize::MAX,
        }
    }

    pub fn children(&self, id: NodeId) -> (r: Children<'_>)
        requires
            self.wf(),
            self.holds(id),
        ensures
            r.wf(),
            r.rest() == self.kids()[id as int],
    {
        let r = Children {
            tree: self,
            cur: self.nodes[id as usize].first_child,
            at: Ghost((id as int, 0int)),
        };
        proof {
            assert(r.rest() =~= self.kids@[id as int]);
        }
        r
    }

    /// The children of a node, in order.
    pub fn child_ids(&self, id: NodeId) -> (r: Vec<NodeId>)
        requires
            self.wf(),
            self.holds(id),
        ensures
            r@ == self.kids()[id as int],
    {
        let mut out: Vec<NodeId> = Vec::new();
        let mut left = self.children(id);
        let ghost all = left.rest();
        loop
            invariant
                left.wf(),
                out@ + left.rest() == all,
            ensures
                out@ == all,
            decreases left.rest().len(),
        {
            let ghost rest = left.rest();
            match left.next() {
                Some(c) => {
                    out.push(c);
                    proof {
                        assert(out@ + left.rest() =~= all) by {
                            assert(rest =~= seq![c] + rest.drop_first());
                        }
                    }
                },
                None => {
                    proof {
                        assert(out@ =~= all);
                    }
                    break;
                },
            }
        }
        out
    }

    /// Absolute path of a node, rebuilt from the chain of names up to the root.
    pub fn path_of(&self, id: NodeId) -> (r: Vec<u8>)
        requires
            self.wf(),
            self.holds(id),
        ensures
            r@ == self.spec_path(id),
    {
        let mut parts: Vec<NodeId> = Vec::new();
        let mut cur: NodeId = id;
        while cur != ROOT
            invariant
                self.wf(),
                self.holds(cur),
                forall|k: int|
                    0 <= k < parts@.len() ==> 0 < #[trigger] parts@[k] < self.nodes().len(),
                forall|k: int|
                    0 <= k < parts@.len() ==> #[trigger] self.nodes()[parts@[k] as int].parent == (
                    if k + 1 < parts@.len() {
                        parts@[k + 1]
                    } else {
                        cur
                    }),
                parts@.len() == 0 ==> cur == id,
                parts@.len() > 0 ==> parts@[0] == id,
            decreases cur,
        {
            let ghost below = parts@;
            parts.push(cur);
            cur = self.nodes[cur as usize].parent;
        }
        let mut path = copy_bytes(self.root_path.as_slice());
        let mut k: usize = parts.len();
        while k > 0
            invariant
                self.wf(),
                k <= parts@.len(),
                forall|k: int|
                    0 <= k < parts@.len() ==> 0 < #[trigger] parts@[k] < self.nodes().len(),
                forall|k: int|
                    0 <= k < parts@.len() ==> #[trigger] self.nodes()[parts@[k] as int].parent == (
                    if k + 1 < parts@.len() {
                        parts@[k + 1]
                    } else {
                        ROOT
                    }),
                path@ == (if k < parts@.len() {
                    self.spec_path(parts@[k as int])
                } else {
                    self.root()
                }),
            decreases k,
        {
            k -= 1;
            proof {
                let part = parts@[k as int];
                assert(self.nodes()[part as int].parent < part);
                assert(self.spec_path(ROOT) == self.root());
                assert(path@ == self.spec_path(self.nodes()[part as int].parent));
            }
            path = join(path.as_slice(), self.name(parts[k]));
        }
        path
    }

    /// Builds a tree from its parts, as they are read from outside. Parts that do not make a tree
    /// are refused.
    pub fn from_raw(
        root_path: Vec<u8>,
        nodes: Vec<Node>,
        names: Vec<u8>,
        errors: u64,
        cancelled: bool,
    ) -> (r: Result<Tree, String>)
        ensures
            match r {
                Ok(t) => {
                    &&& raw_fault(nodes@, names@) is None
                    &&& t.wf()
                    &&& t.nodes() == nodes@
                    &&& t.names() == names@
                    &&& t.root() == root_path@
                    &&& t.missed() == errors
                    &&& t.partial() == cancelled
                },
                Err(e) => raw_fault(nodes@, names@) == Some(e@),
            },
    {
        match find_fault(&nodes, &names) {
            Some(e) => Err(e),
            None => {
                let ghost kids = choose|kids: Seq<Seq<NodeId>>| linked(nodes@, kids);
                Ok(Tree { nodes, names, root_path, kids: Ghost(kids), errors, cancelled })
            },
        }
    }
}

/// `Vec::capacity`: how many items the vector has room for, which is never less than it holds.
#[verifier::external_body]
fn capacity<T>(v: &Vec<T>) -> (r: usize)
    ensures
        r >= v@.len(),
{
    v.capacity()
}

/// Walks the children of a node.
pub struct Children<'a> {
    tree: &'a Tree,
    cur: NodeId,
    at: Ghost<(int, int)>,
}

impl<'a> Children<'a> {
    /// The children that have not been handed out yet.
    pub closed spec fn rest(&self) -> Seq<NodeId> {
        self.tree.kids()[self.at@.0].skip(self.at@.1)
    }

    pub closed spec fn wf(&self) -> bool {
        &&& self.tree.wf()
        &&& 0 <= self.at@.0 < self.tree.kids().len()
        &&& 0 <= self.at@.1 <= self.tree.kids()[self.at@.0].len()
        &&& self.cur == head(self.rest())
    }

    pub fn next(&mut self) -> (r: Option<NodeId>)
        requires
            old(self).wf(),
        ensures
            final(self).wf(),
            match r {
                Some(c) => old(self).rest().len() > 0 && c == old(self).rest()[0]
                    && final(self).rest() == old(self).rest().drop_first(),
                None => old(self).rest().len() == 0 && final(self).rest() == old(self).rest(),
            },
    {
        proof {
            let (i, j) = self.at@;
            if j < self.tree.kids()[i].len() {
                assert(is_kid(self.tree.nodes(), self.tree.kids()[i][j], i));
            }
        }
        if self.cur == NO_NODE {
            return None;
        }
        let id: NodeId = self.cur;
        proof {
            let (i, j) = self.at@;
            assert(self.tree.nodes()[id as int].next_sibling == after(self.tree.kids()[i], j));
            self.at@ = (i, j + 1);
            assert(self.rest() =~= old(self).rest().drop_first());
        }
        self.cur = self.tree.nodes[id as usize].next_sibling;
        Some(id)
    }
}

/// Whether two nodes differ at most in the links that put siblings in order.
pub open spec fn same_but_links(a: Node, b: Node) -> bool {
    b == (Node { first_child: b.first_child, next_sibling: b.next_sibling, ..a })
}

/// Every chain turned round.
pub open spec fn turned(kids: Seq<Seq<NodeId>>) -> Seq<Seq<NodeId>> {
    kids.map_values(|chain: Seq<NodeId>| chain.reverse())
}

/// Whether some assignment of children fits the links.
pub open spec fn is_tree(nodes: Seq<Node>) -> bool {
    exists|kids: Seq<Seq<NodeId>>| linked(nodes, kids)
}

pub open spec fn in_range(link: NodeId, n: nat) -> bool {
    link == NO_NODE || link < n
}

pub open spec fn links_in_range(node: Node, n: nat) -> bool {
    in_range(node.parent, n) && in_range(node.first_child, n) && in_range(node.next_sibling, n)
}

pub open spec fn name_in_range(node: Node, names: Seq<u8>) -> bool {
    node.name_off + node.name_len <= names.len()
}

/// The first node, from `i` on, with a link or a name that leads outside.
pub open spec fn first_stray(nodes: Seq<Node>, names: Seq<u8>, i: int) -> int
    decreases nodes.len() - i,
{
    if i < 0 || i >= nodes.len() || !links_in_range(nodes[i], nodes.len()) || !name_in_range(
        nodes[i],
        names,
    ) {
        i
    } else {
        first_stray(nodes, names, i + 1)
    }
}

/// What is wrong with parts that do not make a tree.
pub open spec fn raw_fault(nodes: Seq<Node>, names: Seq<u8>) -> Option<Seq<char>> {
    let i = first_stray(nodes, names, 0);
    if nodes.len() == 0 {
        Some("the tree has no root"@)
    } else if nodes.len() > NO_NODE {
        Some("the tree has too many nodes"@)
    } else if i < nodes.len() && !links_in_range(nodes[i], nodes.len()) {
        Some("node "@ + dec(i as nat) + " points past the end of the tree"@)
    } else if i < nodes.len() {
        Some("node "@ + dec(i as nat) + " names bytes past the end of the names"@)
    } else if !is_tree(nodes) {
        Some("the links do not form one tree"@)
    } else {
        None
    }
}

fn find_fault(nodes: &Vec<Node>, names: &Vec<u8>) -> (r: Option<String>)
    ensures
        match r {
            Some(e) => raw_fault(nodes@, names@) == Some(e@),
            None => raw_fault(nodes@, names@) is None && is_tree(nodes@) && named(nodes@, names@),
        },
{
    if nodes.len() == 0 {
        return Some(String::from_str("the tree has no root"));
    }
    if nodes.len() as u64 > NO_NODE as u64 {
        return Some(String::from_str("the tree has too many nodes"));
    }
    let n: usize = nodes.len();
    let mut i: usize = 0;
    while i < n
        invariant
            n == nodes@.len(),
            0 < n <= NO_NODE,
            i <= n,
            first_stray(nodes@, names@, 0) == first_stray(nodes@, names@, i as int),
            forall|k: int|
                0 <= k < i ==> links_in_range(#[trigger] nodes@[k], n as nat) && name_in_range(
                    nodes@[k],
                    names@,
                ),
        decreases n - i,
    {
        let node = nodes[i];
        let ok = (node.parent == NO_NODE || (node.parent as usize) < n) && (node.first_child
            == NO_NODE || (node.first_child as usize) < n) && (node.next_sibling == NO_NODE || (
        node.next_sibling as usize) < n);
        if !ok {
            let at = decimal(i as u64);
            return Some(cat3("node ", at.as_str(), " points past the end of the tree"));
        }
        if node.name_off as u64 + node.name_len as u64 > names.len() as u64 {
            let at = decimal(i as u64);
            return Some(cat3("node ", at.as_str(), " names bytes past the end of the names"));
        }
        i += 1;
    }
    proof {
        assert(first_stray(nodes@, names@, 0) == n);
    }
    if check_links(nodes) {
        None
    } else {
        Some(String::from_str("the links do not form one tree"))
    }
}

proof fn lemma_no_stray(nodes: Seq<Node>, names: Seq<u8>, i: int)
    requires
        0 <= i <= nodes.len(),
        forall|k: int|
            0 <= k < nodes.len() ==> links_in_range(#[trigger] nodes[k], nodes.len())
                && name_in_range(nodes[k], names),
    ensures
        first_stray(nodes, names, i) == nodes.len(),
    decreases nodes.len() - i,
{
    if i < nodes.len() {
        lemma_no_stray(nodes, names, i + 1);
    }
}

/// Nothing is wrong with the parts of a tree.
pub proof fn lemma_wf_has_no_fault(t: Tree)
    requires
        t.wf(),
    ensures
        raw_fault(t.nodes(), t.names()) is None,
        0 < t.nodes().len() <= NO_NODE,
{
    let nodes = t.nodes();
    let kids = t.kids();
    assert forall|k: int| 0 <= k < nodes.len() implies links_in_range(
        #[trigger] nodes[k],
        nodes.len(),
    ) && name_in_range(nodes[k], t.names()) by {
        assert(nodes[k].first_child == head(kids[k]));
        if kids[k].len() > 0 {
            assert(is_kid(nodes, kids[k][0], k));
        }
        if k > 0 {
            assert(is_listed(nodes, kids, k));
            let p = nodes[k].parent as int;
            let j = choose|j: int| 0 <= j < kids[p].len() && kids[p][j] == k as NodeId;
            assert(nodes[kids[p][j] as int].next_sibling == after(kids[p], j));
            if j + 1 < kids[p].len() {
                assert(is_kid(nodes, kids[p][j + 1], p));
            }
        }
    }
    lemma_no_stray(nodes, t.names(), 0);
    assert(is_tree(nodes));
}

/// How many entries of `seen` are still false.
spec fn unseen(seen: Seq<bool>) -> nat
    decreases seen.len(),
{
    if seen.len() == 0 {
        0
    } else if seen.last() {
        unseen(seen.drop_last())
    } else {
        unseen(seen.drop_last()) + 1
    }
}

proof fn lemma_unseen_update(seen: Seq<bool>, i: int)
    requires
        0 <= i < seen.len(),
        !seen[i],
    ensures
        unseen(seen.update(i, true)) + 1 == unseen(seen),
    decreases seen.len(),
{
    let next = seen.update(i, true);
    if i == seen.len() - 1 {
        assert(next.drop_last() =~= seen.drop_last());
    } else {
        assert(next.drop_last() =~= seen.drop_last().update(i, true));
        lemma_unseen_update(seen.drop_last(), i);
    }
}

/// Follows every chain of siblings once, and says whether they cover the nodes.
fn check_links(nodes: &Vec<Node>) -> (r: bool)
    requires
        0 < nodes@.len() <= NO_NODE,
        forall|k: int| 0 <= k < nodes@.len() ==> links_in_range(#[trigger] nodes@[k], nodes@.len()),
    ensures
        r == is_tree(nodes@),
{
    let n: usize = nodes.len();
    if nodes[0].parent != NO_NODE || nodes[0].next_sibling != NO_NODE {
        return false;
    }
    let mut i: usize = 1;
    while i < n
        invariant
            n == nodes@.len(),
            1 <= i <= n,
            n <= NO_NODE,
            forall|k: int| 0 < k < i ==> (#[trigger] nodes@[k]).parent < k,
        decreases n - i,
    {
        if nodes[i].parent as usize >= i {
            return false;
        }
        i += 1;
    }
    let mut seen: Vec<bool> = Vec::new();
    while seen.len() < n
        invariant
            seen@.len() <= n,
            forall|k: int| 0 <= k < seen@.len() ==> !(#[trigger] seen@[k]),
        decreases n - seen.len(),
    {
        seen.push(false);
    }
    let ghost mut kids: Seq<Seq<NodeId>> = Seq::empty();
    let mut p: usize = 0;
    while p < n
        invariant
            n == nodes@.len(),
            0 < n <= NO_NODE,
            p <= n,
            kids.len() == p,
            seen@.len() == n,
            nodes@[0].parent == NO_NODE,
            nodes@[0].next_sibling == NO_NODE,
            forall|k: int| 0 < k < n ==> (#[trigger] nodes@[k]).parent < k,
            forall|k: int| 0 <= k < n ==> links_in_range(#[trigger] nodes@[k], n as nat),
            chains_ok(nodes@, kids),
            forall|c: int|
                0 <= c < n ==> #[trigger] seen@[c] == (0 < c && nodes@[c].parent < p && is_listed(
                    nodes@,
                    kids,
                    c,
                )),
            forall|k2: Seq<Seq<NodeId>>| #[trigger]
                linked(nodes@, k2) ==> forall|q: int| 0 <= q < p ==> k2[q] == #[trigger] kids[q],
        decreases n - p,
    {
        let ghost mut chain: Seq<NodeId> = Seq::empty();
        let ghost before = seen@;
        let mut cur: NodeId = nodes[p].first_child;
        while cur != NO_NODE
            invariant
                n == nodes@.len(),
                0 < n <= NO_NODE,
                p < n,
                kids.len() == p,
                seen@.len() == n,
                before.len() == n,
                in_range(cur, n as nat),
                forall|k: int| 0 < k < n ==> (#[trigger] nodes@[k]).parent < k,
                forall|k: int| 0 <= k < n ==> links_in_range(#[trigger] nodes@[k], n as nat),
                forall|c: int|
                    0 <= c < n ==> #[trigger] before[c] == (0 < c && nodes@[c].parent < p
                        && is_listed(nodes@, kids, c)),
                forall|c: int|
                    0 <= c < n ==> #[trigger] seen@[c] == (before[c] || chain.contains(
                        c as NodeId,
                    )),
                forall|j: int| 0 <= j < chain.len() ==> is_kid(nodes@, #[trigger] chain[j], p as int),
                chain.no_duplicates(),
                nodes@[p as int].first_child == (if chain.len() > 0 {
                    chain[0]
                } else {
                    cur
                }),
                forall|j: int|
                    0 <= j < chain.len() ==> #[trigger] nodes@[chain[j] as int].next_sibling == (if j
                        + 1 < chain.len() {
                        chain[j + 1]
                    } else {
                        cur
                    }),
                forall|k2: Seq<Seq<NodeId>>| #[trigger]
                    linked(nodes@, k2) ==> chain.is_prefix_of(k2[p as int]) && cur == (if chain.len()
                        < k2[p as int].len() {
                        k2[p as int][chain.len() as int]
                    } else {
                        NO_NODE
                    }),
            decreases unseen(seen@),
        {
            if cur == 0 || nodes[cur as usize].parent as usize != p || seen[cur as usize] {
                proof {
                    if is_tree(nodes@) {
                        let k2 = choose|k2: Seq<Seq<NodeId>>| linked(nodes@, k2);
                        let own = k2[p as int];
                        let j = chain.len() as int;
                        assert(is_kid(nodes@, own[j], p as int));
                        if chain.contains(cur) {
                            let x = choose|x: int| 0 <= x < chain.len() && chain[x] == cur;
                            assert(own[x] == own[j]);
                            assert(own.no_duplicates());
                        }
                        assert(false);
                    }
                }
                return false;
            }
            let ghost here = chain;
            proof {
                lemma_unseen_update(seen@, cur as int);
                assert(!chain.contains(cur));
            }
            let next: NodeId = nodes[cur as usize].next_sibling;
            seen.set(cur as usize, true);
            proof {
                let old_cur = cur;
                chain = chain.push(cur);
                assert forall|c: int| 0 <= c < n implies #[trigger] seen@[c] == (before[c]
                    || chain.contains(c as NodeId)) by {
                    if c == old_cur {
                        assert(chain[here.len() as int] == old_cur);
                    } else {
                        if here.contains(c as NodeId) {
                            let x = choose|x: int| 0 <= x < here.len() && here[x] == c as NodeId;
                            assert(chain[x] == c as NodeId);
                        }
                        if chain.contains(c as NodeId) {
                            let x = choose|x: int| 0 <= x < chain.len() && chain[x] == c as NodeId;
                            assert(here[x] == c as NodeId);
                        }
                    }
                }
                assert forall|k2: Seq<Seq<NodeId>>| #[trigger] linked(nodes@, k2) implies (
                chain.is_prefix_of(k2[p as int]) && next == (if chain.len() < k2[p as int].len() {
                    k2[p as int][chain.len() as int]
                } else {
                    NO_NODE
                })) by {
                    let own = k2[p as int];
                    if here.len() >= own.len() {
                        assert(cur == NO_NODE);
                    }
                    assert(own[here.len() as int] == cur);
                    assert(nodes@[own[here.len() as int] as int].next_sibling == after(
                        k2[p as int],
                        here.len() as int,
                    ));
                    assert(chain =~= own.take(chain.len() as int));
                }
            }
            cur = next;
        }
        proof {
            let was = kids;
            kids = kids.push(chain);
            assert forall|c: int| 0 <= c < n implies #[trigger] seen@[c] == (0 < c
                && nodes@[c].parent < p + 1 && is_listed(nodes@, kids, c)) by {
                if 0 < c && nodes@[c].parent < p {
                    assert(kids[nodes@[c].parent as int] == was[nodes@[c].parent as int]);
                }
                if chain.contains(c as NodeId) {
                    let x = choose|x: int| 0 <= x < chain.len() && chain[x] == c as NodeId;
                    assert(is_kid(nodes@, chain[x], p as int));
                }
            }
            assert(chains_ok(nodes@, kids)) by {
                assert forall|i: int, j: int|
                    0 <= i < kids.len() && 0 <= j < kids[i].len() implies nodes@[kids[i][j] as int].next_sibling
                    == #[trigger] after(kids[i], j) by {
                    if i < p {
                        assert(kids[i] == was[i]);
                        assert(after(was[i], j) == after(kids[i], j));
                    }
                }
            }
            assert forall|k2: Seq<Seq<NodeId>>| #[trigger] linked(nodes@, k2) implies forall|q: int|
                0 <= q < p + 1 ==> k2[q] == #[trigger] kids[q] by {
                let own = k2[p as int];
                assert(chain.len() == own.len()) by {
                    if chain.len() < own.len() {
                        assert(is_kid(nodes@, own[chain.len() as int], p as int));
                    }
                }
                assert(chain =~= own);
            }
        }
        p += 1;
    }
    let mut c: usize = 1;
    while c < n
        invariant
            n == nodes@.len(),
            seen@.len() == n,
            1 <= c <= n,
            forall|k: int| 0 < k < c ==> #[trigger] seen@[k],
            forall|k: int| 0 < k < n ==> (#[trigger] nodes@[k]).parent < k,
            kids.len() == n,
            forall|k: int|
                0 <= k < n ==> #[trigger] seen@[k] == (0 < k && nodes@[k].parent < n && is_listed(
                    nodes@,
                    kids,
                    k,
                )),
            forall|k2: Seq<Seq<NodeId>>| #[trigger]
                linked(nodes@, k2) ==> forall|q: int| 0 <= q < n ==> k2[q] == #[trigger] kids[q],
        decreases n - c,
    {
        if !seen[c] {
            proof {
                if is_tree(nodes@) {
                    let k2 = choose|k2: Seq<Seq<NodeId>>| linked(nodes@, k2);
                    assert(is_listed(nodes@, k2, c as int));
                    assert(k2[nodes@[c as int].parent as int] == kids[nodes@[c as int].parent as int]);
                    assert(false);
                }
            }
            return false;
        }
        c += 1;
    }
    proof {
        assert forall|k: int| 0 < k < n implies #[trigger] is_listed(nodes@, kids, k) by {
            assert(seen@[k]);
        }
        assert(linked(nodes@, kids));
    }
    true
}

/// Whether the chains found so far are what the links say.
spec fn chains_ok(nodes: Seq<Node>, kids: Seq<Seq<NodeId>>) -> bool {
    &&& forall|i: int| 0 <= i < kids.len() ==> nodes[i].first_child == head(#[trigger] kids[i])
    &&& forall|i: int| 0 <= i < kids.len() ==> (#[trigger] kids[i]).no_duplicates()
    &&& forall|i: int, j: int|
        0 <= i < kids.len() && 0 <= j < kids[i].len() ==> is_kid(nodes, #[trigger] kids[i][j], i)
    &&& forall|i: int, j: int|
        0 <= i < kids.len() && 0 <= j < kids[i].len() ==> nodes[kids[i][j] as int].next_sibling
            == #[trigger] after(kids[i], j)
}

/// Turning every chain round twice gives back what was there.
pub proof fn law_finish_twice(kids: Seq<Seq<NodeId>>)
    ensures
        turned(turned(kids)) == kids,
{
    assert forall|i: int| 0 <= i < kids.len() implies turned(turned(kids))[i] == kids[i] by {
        assert(kids[i].reverse().reverse() =~= kids[i]);
    }
    assert(turned(turned(kids)) =~= kids);
}

/// The root is above every node.
pub(crate) proof fn lemma_root_above(nodes: Seq<Node>, kids: Seq<Seq<NodeId>>, d: int)
    requires
        linked(nodes, kids),
        0 <= d < nodes.len(),
    ensures
        is_above(nodes, 0, d),
    decreases d,
{
    if d > 0 {
        lemma_root_above(nodes, kids, nodes[d].parent as int);
    }
}

proof fn lemma_weight_root(nodes: Seq<Node>, kids: Seq<Seq<NodeId>>, w: Seq<nat>, a: int, n: int)
    requires
        linked(nodes, kids),
        n <= nodes.len(),
    ensures
        weight_below(nodes, w, a, n) <= weight_below(nodes, w, 0, n),
    decreases n,
{
    if n > 0 {
        lemma_root_above(nodes, kids, n - 1);
        lemma_weight_root(nodes, kids, w, a, n - 1);
    }
}

proof fn lemma_weight_ones(nodes: Seq<Node>, a: int, m: nat, n: int)
    requires
        0 <= n <= m,
    ensures
        weight_below(nodes, ones(m), a, n) <= n,
    decreases n,
{
    if n > 0 {
        lemma_weight_ones(nodes, a, m, n - 1);
    }
}

/// In a tree whose totals add up, the root carries the most: what it can take, every node can.
pub proof fn law_root_carries_all(
    nodes: Seq<Node>,
    kids: Seq<Seq<NodeId>>,
    wa: Seq<nat>,
    wd: Seq<nat>,
    parent: int,
    apparent: u64,
    disk: u64,
)
    requires
        linked(nodes, kids),
        accounted(nodes, wa, wd),
        nodes[0].apparent + apparent <= u64::MAX,
        nodes[0].disk + disk <= u64::MAX,
    ensures
        can_carry(nodes, parent, apparent, disk),
{
    let n = nodes.len() as int;
    assert forall|a: int| 0 <= a < nodes.len() && #[trigger] is_above(nodes, a, parent) implies
        nodes[a].apparent + apparent <= u64::MAX && nodes[a].disk + disk <= u64::MAX
        && nodes[a].items < u32::MAX by {
        lemma_weight_root(nodes, kids, wa, a, n);
        lemma_weight_root(nodes, kids, wd, a, n);
        lemma_weight_ones(nodes, a, nodes.len(), n);
        assert(nodes[0].apparent == weight_below(nodes, wa, 0, n));
        assert(nodes[a].apparent == weight_below(nodes, wa, a, n));
    }
}

/// The root's totals are the sums of what every node weighs by itself.
pub proof fn law_root_totals(
    nodes: Seq<Node>,
    kids: Seq<Seq<NodeId>>,
    wa: Seq<nat>,
    wd: Seq<nat>,
)
    requires
        linked(nodes, kids),
        accounted(nodes, wa, wd),
    ensures
        nodes[0].apparent == total(wa, wa.len() as int),
        nodes[0].disk == total(wd, wd.len() as int),
        nodes[0].items + 1 == nodes.len(),
{
    lemma_weight_all(nodes, kids, wa, nodes.len() as int);
    lemma_weight_all(nodes, kids, wd, nodes.len() as int);
    lemma_weight_all(nodes, kids, ones(nodes.len()), nodes.len() as int);
    lemma_total_ones(nodes.len(), nodes.len() as int);
    assert(nodes[0].apparent == weight_below(nodes, wa, 0, nodes.len() as int));
}

/// The sum of the first `n` weights.
pub open spec fn total(w: Seq<nat>, n: int) -> nat
    decreases n,
{
    if n <= 0 {
        0
    } else {
        total(w, n - 1) + w[n - 1]
    }
}

proof fn lemma_total_ones(m: nat, n: int)
    requires
        0 <= n <= m,
    ensures
        total(ones(m), n) == n,
    decreases n,
{
    if n > 0 {
        lemma_total_ones(m, n - 1);
    }
}

proof fn lemma_weight_all(nodes: Seq<Node>, kids: Seq<Seq<NodeId>>, w: Seq<nat>, n: int)
    requires
        linked(nodes, kids),
        0 <= n <= nodes.len(),
    ensures
        weight_below(nodes, w, 0, n) == total(w, n),
    decreases n,
{
    if n > 0 {
        lemma_root_above(nodes, kids, n - 1);
        lemma_weight_all(nodes, kids, w, n - 1);
    }
}

/// Totals that add up go on doing so while neither they nor the parents change.
pub proof fn lemma_same_totals(a: Seq<Node>, b: Seq<Node>, wa: Seq<nat>, wd: Seq<nat>)
    requires
        accounted(a, wa, wd),
        a.len() == b.len(),
        forall|i: int|
            0 <= i < a.len() ==> (#[trigger] b[i]).parent == a[i].parent && b[i].apparent
                == a[i].apparent && b[i].disk == a[i].disk && b[i].items == a[i].items,
    ensures
        accounted(b, wa, wd),
{
    let n = a.len() as int;
    assert forall|x: int| 0 <= x < b.len() implies {
        &&& (#[trigger] b[x]).apparent == weight_below(b, wa, x, n)
        &&& b[x].disk == weight_below(b, wd, x, n)
        &&& b[x].items + 1 == weight_below(b, ones(b.len()), x, n)
    } by {
        lemma_weight_frame(a, b, wa, wa, x, n);
        lemma_weight_frame(a, b, wd, wd, x, n);
        lemma_weight_frame(a, b, ones(a.len()), ones(b.len()), x, n);
        assert(a[x].apparent == weight_below(a, wa, x, n));
    }
}

/// Putting siblings in order leaves every total as it was.
pub proof fn law_order_keeps_totals(a: Seq<Node>, b: Seq<Node>, wa: Seq<nat>, wd: Seq<nat>)
    requires
        accounted(a, wa, wd),
        a.len() == b.len(),
        forall|i: int| 0 <= i < a.len() ==> same_but_links(a[i], #[trigger] b[i]),
    ensures
        accounted(b, wa, wd),
{
    assert forall|i: int| 0 <= i < a.len() implies (#[trigger] b[i]).parent == a[i].parent
        && b[i].apparent == a[i].apparent && b[i].disk == a[i].disk && b[i].items == a[i].items by {
        assert(same_but_links(a[i], b[i]));
    }
    lemma_same_totals(a, b, wa, wd);
}

/// The links fix the children: there is only one assignment that fits.
pub proof fn law_links_fix_the_children(nodes: Seq<Node>, a: Seq<Seq<NodeId>>, b: Seq<Seq<NodeId>>)
    requires
        linked(nodes, a),
        linked(nodes, b),
    ensures
        a == b,
{
    assert forall|i: int| 0 <= i < a.len() implies a[i] == b[i] by {
        lemma_chain_prefix(nodes, a, b, i, a[i].len() as int);
        lemma_chain_prefix(nodes, b, a, i, b[i].len() as int);
        assert(a[i] =~= b[i]);
    }
    assert(a =~= b);
}

proof fn lemma_chain_prefix(
    nodes: Seq<Node>,
    a: Seq<Seq<NodeId>>,
    b: Seq<Seq<NodeId>>,
    i: int,
    n: int,
)
    requires
        linked(nodes, a),
        linked(nodes, b),
        0 <= i < nodes.len(),
        0 <= n <= a[i].len(),
    ensures
        n <= b[i].len(),
        forall|j: int| 0 <= j < n ==> #[trigger] a[i][j] == b[i][j],
    decreases n,
{
    if n > 0 {
        lemma_chain_prefix(nodes, a, b, i, n - 1);
        assert(is_kid(nodes, a[i][n - 1], i));
        if n == 1 {
            assert(nodes[i].first_child == head(a[i]));
            assert(nodes[i].first_child == head(b[i]));
        } else {
            assert(a[i][n - 2] == b[i][n - 2]);
            assert(nodes[a[i][n - 2] as int].next_sibling == after(a[i], n - 2));
            assert(nodes[b[i][n - 2] as int].next_sibling == after(b[i], n - 2));
        }
    }
}

/// Links survive a change that leaves them alone.
proof fn lemma_linked_frame(a: Seq<Node>, b: Seq<Node>, kids: Seq<Seq<NodeId>>)
    requires
        linked(a, kids),
        a.len() == b.len(),
        forall|i: int|
            0 <= i < a.len() ==> (#[trigger] b[i]).parent == a[i].parent && b[i].first_child
                == a[i].first_child && b[i].next_sibling == a[i].next_sibling,
    ensures
        linked(b, kids),
{
    assert forall|i: int, j: int| 0 <= i < kids.len() && 0 <= j < kids[i].len() implies is_kid(
        b,
        #[trigger] kids[i][j],
        i,
    ) by {
        assert(is_kid(a, kids[i][j], i));
    }
    assert forall|i: int, j: int|
        0 <= i < kids.len() && 0 <= j < kids[i].len() implies b[kids[i][j] as int].next_sibling
        == #[trigger] after(kids[i], j) by {
        assert(is_kid(a, kids[i][j], i));
    }
    assert forall|c: int| 0 < c < b.len() implies #[trigger] is_listed(b, kids, c) by {
        assert(is_listed(a, kids, c));
    }
}

proof fn lemma_linked_reverse(
    before: Seq<Node>,
    kids: Seq<Seq<NodeId>>,
    i: int,
    now: Seq<Node>,
)
    requires
        linked(before, kids),
        0 <= i < before.len(),
        now.len() == before.len(),
        forall|k: int|
            0 <= k < before.len() ==> {
                &&& same_but_links(before[k], #[trigger] now[k])
                &&& now[k].first_child == (if k == i {
                    head(kids[i].reverse())
                } else {
                    before[k].first_child
                })
                &&& before[k].parent != i || k == 0 ==> now[k].next_sibling
                    == before[k].next_sibling
            },
        forall|x: int|
            0 <= x < kids[i].len() ==> now[#[trigger] kids[i][x] as int].next_sibling == (if x > 0 {
                kids[i][x - 1]
            } else {
                NO_NODE
            }),
    ensures
        linked(now, kids.update(i, kids[i].reverse())),
{
    let chain = kids[i];
    let back = chain.reverse();
    let next = kids.update(i, back);
    assert forall|p: int| 0 <= p < next.len() implies (#[trigger] next[p]).no_duplicates() by {
        if p == i {
            assert forall|x: int, y: int|
                0 <= x < back.len() && 0 <= y < back.len() && x != y implies back[x] != back[y] by {
                assert(chain[chain.len() - 1 - x] != chain[chain.len() - 1 - y]);
            }
        } else {
            assert(next[p] == kids[p]);
        }
    }
    assert forall|p: int, j: int| 0 <= p < next.len() && 0 <= j < next[p].len() implies is_kid(
        now,
        #[trigger] next[p][j],
        p,
    ) by {
        if p == i {
            assert(back[j] == chain[chain.len() - 1 - j]);
            assert(is_kid(before, kids[i][chain.len() - 1 - j], i));
        } else {
            assert(next[p] == kids[p]);
            assert(is_kid(before, kids[p][j], p));
        }
    }
    assert forall|p: int, j: int|
        0 <= p < next.len() && 0 <= j < next[p].len() implies now[next[p][j] as int].next_sibling
        == #[trigger] after(next[p], j) by {
        if p == i {
            let x = chain.len() - 1 - j;
            assert(back[j] == chain[x]);
            assert(now[kids[i][x] as int].next_sibling == (if x > 0 {
                kids[i][x - 1]
            } else {
                NO_NODE
            }));
        } else {
            assert(next[p] == kids[p]);
            assert(is_kid(before, kids[p][j], p));
            assert(before[kids[p][j] as int].next_sibling == after(kids[p], j));
        }
    }
    assert forall|c: int| 0 < c < now.len() implies #[trigger] is_listed(now, next, c) by {
        assert(is_listed(before, kids, c));
        let p = before[c].parent as int;
        if p == i {
            let x = choose|x: int| 0 <= x < chain.len() && chain[x] == c as NodeId;
            assert(back[chain.len() - 1 - x] == c as NodeId);
        } else {
            assert(next[p] == kids[p]);
        }
    }
}

proof fn lemma_above_le(nodes: Seq<Node>, a: int, d: int)
    ensures
        is_above(nodes, a, d) ==> a <= d,
    decreases d,
{
    if a != d && 0 < d < nodes.len() && nodes[d].parent < d {
        lemma_above_le(nodes, a, nodes[d].parent as int);
    }
}

/// Above a node are the node itself and what is above its parent.
proof fn lemma_above_linear(nodes: Seq<Node>, d: int)
    requires
        0 <= d < nodes.len(),
        nodes[0].parent == NO_NODE,
        nodes.len() <= NO_NODE,
        d > 0 ==> nodes[d].parent < d,
    ensures
        forall|i: int|
            0 <= i < nodes.len() ==> #[trigger] is_above(nodes, i, d) == (i == d || (
            nodes[d].parent != NO_NODE && is_above(nodes, i, nodes[d].parent as int))),
{
}

proof fn lemma_above_transitive(nodes: Seq<Node>, a: int, b: int, c: int)
    requires
        is_above(nodes, a, b),
        is_above(nodes, b, c),
    ensures
        is_above(nodes, a, c),
    decreases c,
{
    if b != c {
        lemma_above_transitive(nodes, a, b, nodes[c].parent as int);
    }
}

proof fn lemma_above_up(nodes: Seq<Node>, a: int, d: int)
    requires
        0 < a < nodes.len(),
        nodes[a].parent < a,
        is_above(nodes, a, d),
    ensures
        is_above(nodes, nodes[a].parent as int, d),
{
    let p = nodes[a].parent as int;
    assert(is_above(nodes, p, p));
    assert(is_above(nodes, p, a));
    lemma_above_transitive(nodes, p, a, d);
}

/// What is above what depends on the parents alone.
pub(crate) proof fn lemma_above_frame(a: Seq<Node>, b: Seq<Node>, x: int, y: int)
    requires
        a.len() <= b.len(),
        y < a.len(),
        forall|i: int| 0 <= i < a.len() ==> (#[trigger] a[i]).parent == b[i].parent,
    ensures
        is_above(a, x, y) == is_above(b, x, y),
    decreases y,
{
    if 0 < y && a[y].parent < y {
        lemma_above_frame(a, b, x, a[y].parent as int);
    }
}

proof fn lemma_linked_push(nodes: Seq<Node>, kids: Seq<Seq<NodeId>>, fresh: Node)
    requires
        linked(nodes, kids),
        nodes.len() < NO_NODE,
        fresh.parent < nodes.len(),
        fresh.first_child == NO_NODE,
        fresh.next_sibling == head(kids[fresh.parent as int]),
    ensures
        linked(
            with_child(nodes, fresh),
            kids.update(
                fresh.parent as int,
                seq![nodes.len() as NodeId] + kids[fresh.parent as int],
            ).push(Seq::empty()),
        ),
        newest_first(kids) ==> newest_first(
            kids.update(
                fresh.parent as int,
                seq![nodes.len() as NodeId] + kids[fresh.parent as int],
            ).push(Seq::empty()),
        ),
{
    let id = nodes.len() as NodeId;
    let p = fresh.parent as int;
    let chain = seq![id] + kids[p];
    let more = with_child(nodes, fresh);
    let grown = kids.update(p, chain).push(Seq::empty());
    assert forall|i: int| 0 <= i < grown.len() implies (#[trigger] grown[i]).no_duplicates() by {
        if i == p {
            assert forall|x: int, y: int|
                0 <= x < chain.len() && 0 <= y < chain.len() && x != y implies chain[x]
                != chain[y] by {
                if x > 0 {
                    assert(is_kid(nodes, kids[p][x - 1], p));
                }
                if y > 0 {
                    assert(is_kid(nodes, kids[p][y - 1], p));
                }
                if x > 0 && y > 0 {
                    assert(kids[p][x - 1] != kids[p][y - 1]);
                }
            }
        } else if i < kids.len() {
            assert(grown[i] == kids[i]);
        }
    }
    assert forall|i: int, j: int| 0 <= i < grown.len() && 0 <= j < grown[i].len() implies is_kid(
        more,
        #[trigger] grown[i][j],
        i,
    ) by {
        if i == p {
            if j > 0 {
                assert(grown[i][j] == kids[p][j - 1]);
                assert(is_kid(nodes, kids[p][j - 1], p));
            }
        } else {
            assert(grown[i] == kids[i]);
            assert(is_kid(nodes, kids[i][j], i));
        }
    }
    assert forall|i: int, j: int|
        0 <= i < grown.len() && 0 <= j < grown[i].len() implies more[grown[i][j] as int].next_sibling
        == #[trigger] after(grown[i], j) by {
        if i == p {
            if j > 0 {
                assert(grown[i][j] == kids[p][j - 1]);
                assert(is_kid(nodes, kids[p][j - 1], p));
                assert(after(chain, j) == after(kids[p], j - 1));
            }
        } else {
            assert(grown[i] == kids[i]);
            assert(is_kid(nodes, kids[i][j], i));
            assert(after(kids[i], j) == after(grown[i], j));
        }
    }
    assert forall|c: int| 0 < c < more.len() implies #[trigger] is_listed(more, grown, c) by {
        if c == id {
            assert(chain[0] == id);
        } else {
            let q = nodes[c].parent as int;
            assert(is_listed(nodes, kids, c));
            let j = choose|j: int| 0 <= j < kids[q].len() && kids[q][j] == c as NodeId;
            if q == p {
                assert(chain[j + 1] == c as NodeId);
            } else {
                assert(grown[q] == kids[q]);
            }
        }
    }
    if newest_first(kids) {
        assert forall|i: int, j: int, k: int|
            0 <= i < grown.len() && 0 <= j < k < grown[i].len() implies #[trigger] grown[i][j]
            > #[trigger] grown[i][k] by {
            if i == p {
                assert(grown[i][k] == kids[p][k - 1]);
                assert(is_kid(nodes, kids[p][k - 1], p));
                if j > 0 {
                    assert(grown[i][j] == kids[p][j - 1]);
                }
            } else {
                assert(grown[i] == kids[i]);
            }
        }
    }
}

proof fn lemma_weight_frame(a: Seq<Node>, b: Seq<Node>, w: Seq<nat>, v: Seq<nat>, x: int, n: int)
    requires
        a.len() <= b.len(),
        n <= a.len(),
        n <= w.len(),
        n <= v.len(),
        forall|i: int| 0 <= i < a.len() ==> (#[trigger] a[i]).parent == b[i].parent,
        forall|i: int| 0 <= i < n ==> #[trigger] w[i] == v[i],
    ensures
        weight_below(a, w, x, n) == weight_below(b, v, x, n),
    decreases n,
{
    if n > 0 {
        lemma_above_frame(a, b, x, n - 1);
        lemma_weight_frame(a, b, w, v, x, n - 1);
    }
}

proof fn lemma_weight_none(nodes: Seq<Node>, w: Seq<nat>, x: int, n: int)
    requires
        n <= x,
    ensures
        weight_below(nodes, w, x, n) == 0,
    decreases n,
{
    if n > 0 {
        lemma_above_le(nodes, x, n - 1);
        lemma_weight_none(nodes, w, x, n - 1);
    }
}

proof fn lemma_accounted_push(
    nodes: Seq<Node>,
    kids: Seq<Seq<NodeId>>,
    fresh: Node,
    wa: Seq<nat>,
    wd: Seq<nat>,
)
    requires
        linked(nodes, kids),
        nodes.len() < NO_NODE,
        fresh.parent < nodes.len(),
        fresh.items == 0,
        can_carry(nodes, fresh.parent as int, fresh.apparent, fresh.disk),
        accounted(nodes, wa, wd),
    ensures
        accounted(
            with_child(nodes, fresh),
            wa.push(fresh.apparent as nat),
            wd.push(fresh.disk as nat),
        ),
{
    let n = nodes.len() as int;
    let more = with_child(nodes, fresh);
    let ma = wa.push(fresh.apparent as nat);
    let md = wd.push(fresh.disk as nat);
    assert forall|a: int| 0 <= a < more.len() implies {
        &&& (#[trigger] more[a]).apparent == weight_below(more, ma, a, n + 1)
        &&& more[a].disk == weight_below(more, md, a, n + 1)
        &&& more[a].items + 1 == weight_below(more, ones(more.len()), a, n + 1)
    } by {
        assert(is_above(more, a, n) == (a == n || is_above(more, a, fresh.parent as int)));
        if a < n {
            lemma_above_frame(nodes, more, a, fresh.parent as int);
            lemma_weight_frame(nodes, more, wa, ma, a, n);
            lemma_weight_frame(nodes, more, wd, md, a, n);
            lemma_weight_frame(nodes, more, ones(nodes.len()), ones(more.len()), a, n);
            assert(nodes[a].apparent == weight_below(nodes, wa, a, n));
        } else {
            lemma_weight_none(more, ma, a, n);
            lemma_weight_none(more, md, a, n);
            lemma_weight_none(more, ones(more.len()), a, n);
        }
    }
}

} // verus!
