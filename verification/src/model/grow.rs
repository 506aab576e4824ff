//! How a tree grows, one node after another.

use vstd::prelude::*;

use crate::model::{
    accounted, clipped, head, law_root_carries_all, lemma_same_totals, newest_first, with_child,
    Meta, Node, NodeId, Tree, MAX_NAME, NO_NODE, ROOT,
};

verus! {

/// One node to add, in terms of its name.
pub struct Added {
    pub parent: int,
    pub name: Seq<u8>,
    pub meta: Meta,
    pub flags: u16,
    pub counted: bool,
    pub error: bool,
}

/// A tree in the making.
pub struct Model {
    pub nodes: Seq<Node>,
    pub names: Seq<u8>,
    pub kids: Seq<Seq<NodeId>>,
}

pub open spec fn model_of(t: Tree) -> Model {
    Model { nodes: t.nodes(), names: t.names(), kids: t.kids() }
}

/// What a node weighs by itself.
pub open spec fn weight(a: Added) -> (u64, u64) {
    if a.counted {
        (a.meta.apparent, a.meta.disk)
    } else {
        (0, 0)
    }
}

/// What a root and the nodes below it weigh, each by itself.
pub open spec fn apparent_weights(root: u64, list: Seq<Added>) -> Seq<nat> {
    Seq::new(
        list.len() + 1,
        |k: int|
            if k == 0 {
                root as nat
            } else {
                weight(list[k - 1]).0 as nat
            },
    )
}

pub open spec fn disk_weights(root: u64, list: Seq<Added>) -> Seq<nat> {
    Seq::new(
        list.len() + 1,
        |k: int|
            if k == 0 {
                root as nat
            } else {
                weight(list[k - 1]).1 as nat
            },
    )
}

/// Whether a tree has room for one more node, in number, in names and in its totals.
pub open spec fn takes(m: Model, a: Added) -> bool {
    &&& m.nodes.len() < NO_NODE
    &&& m.names.len() + clipped(a.name).len() <= u32::MAX
    &&& m.nodes[0].apparent + weight(a).0 <= u64::MAX
    &&& m.nodes[0].disk + weight(a).1 <= u64::MAX
}

/// The tree with one more node.
pub open spec fn with_added(m: Model, a: Added) -> Model {
    let id = m.nodes.len() as NodeId;
    Model {
        nodes: with_child(
            m.nodes,
            Node {
                apparent: weight(a).0,
                disk: weight(a).1,
                mtime: a.meta.mtime,
                parent: a.parent as NodeId,
                first_child: NO_NODE,
                next_sibling: head(m.kids[a.parent]),
                items: 0,
                name_off: m.names.len() as u32,
                name_len: clipped(a.name).len() as u16,
                flags: a.meta.kind.as_flags() | a.flags,
            },
        ),
        names: m.names + clipped(a.name),
        kids: m.kids.update(a.parent, seq![id] + m.kids[a.parent]).push(Seq::empty()),
    }
}

/// The tree with the first `n` nodes added, as long as there is room.
pub open spec fn grown(m: Model, list: Seq<Added>, n: int) -> Option<Model>
    decreases n,
{
    if n <= 0 {
        Some(m)
    } else {
        match grown(m, list, n - 1) {
            Some(k) => if takes(k, list[n - 1]) {
                Some(with_added(k, list[n - 1]))
            } else {
                None
            },
            None => None,
        }
    }
}

/// The tree with more flags on one node.
pub open spec fn marked(m: Model, id: int, flags: u16) -> Model {
    Model { nodes: m.nodes.update(id, Node { flags: m.nodes[id].flags | flags, ..m.nodes[id] }), ..m }
}

/// A tree of which there is just the root.
pub open spec fn root_model(meta: Meta) -> Model {
    Model {
        nodes: seq![
            Node {
                apparent: meta.apparent,
                disk: meta.disk,
                mtime: meta.mtime,
                parent: NO_NODE,
                first_child: NO_NODE,
                next_sibling: NO_NODE,
                items: 0,
                name_off: 0,
                name_len: 0,
                flags: meta.kind.as_flags(),
            },
        ],
        names: Seq::empty(),
        kids: seq![Seq::<NodeId>::empty()],
    }
}

/// How many of the first `n` nodes could not be read.
pub open spec fn errors_in(list: Seq<Added>, n: int) -> nat
    decreases n,
{
    if n <= 0 {
        0
    } else if list[n - 1].error {
        errors_in(list, n - 1) + 1
    } else {
        errors_in(list, n - 1)
    }
}

/// A tree that ran out of room stays out of room.
pub proof fn lemma_grown_none(m: Model, list: Seq<Added>, n: int, k: int)
    requires
        0 <= k <= n,
        grown(m, list, k) is None,
    ensures
        grown(m, list, n) is None,
    decreases n - k,
{
    if k < n {
        assert(grown(m, list, k + 1) is None);
        lemma_grown_none(m, list, n, k + 1);
    }
}

/// A tree in the making whose totals are known to add up, so that what the root can take, every
/// node can.
pub struct Growth {
    pub tree: Tree,
    /// What each node weighs by itself.
    pub wa: Ghost<Seq<nat>>,
    pub wd: Ghost<Seq<nat>>,
}

impl Growth {
    pub open spec fn wf(&self) -> bool {
        &&& self.tree.wf()
        &&& accounted(self.tree.nodes(), self.wa@, self.wd@)
        &&& newest_first(self.tree.kids())
    }

    pub open spec fn model(&self) -> Model {
        model_of(self.tree)
    }

    /// Start with just the root.
    pub fn new(root_path: Vec<u8>, meta: &Meta) -> (r: Growth)
        ensures
            r.wf(),
            r.model() == root_model(*meta),
            r.wa@ == seq![meta.apparent as nat],
            r.wd@ == seq![meta.disk as nat],
            r.tree.root() == root_path@,
            r.tree.missed() == 0,
            !r.tree.partial(),
    {
        let tree = Tree::new(root_path, meta);
        let ghost wa = seq![meta.apparent as nat];
        let ghost wd = seq![meta.disk as nat];
        proof {
            assert(model_of(tree).nodes =~= root_model(*meta).nodes);
            assert(model_of(tree).names =~= root_model(*meta).names);
            assert(model_of(tree).kids =~= root_model(*meta).kids);
        }
        Growth { tree, wa: Ghost(wa), wd: Ghost(wd) }
    }

    /// Whether there is room for a node with a name this long.
    pub fn takes(&self, name: &[u8], meta: &Meta, counted: bool) -> (r: bool)
        requires
            self.wf(),
        ensures
            forall|parent: int, flags: u16, error: bool|
                r == #[trigger] takes(
                    self.model(),
                    Added { parent, name: name@, meta: *meta, flags, counted, error },
                ),
    {
        let top = self.tree.node(ROOT);
        let (apparent, disk): (u64, u64) = if counted {
            (meta.apparent, meta.disk)
        } else {
            (0, 0)
        };
        let kept: usize = if name.len() > MAX_NAME {
            MAX_NAME
        } else {
            name.len()
        };
        proof {
            assert(clipped(name@).len() == kept);
        }
        let used: u64 = self.tree.raw_names().len() as u64;
        (self.tree.len() as u64) < NO_NODE as u64 && used <= 0xffff_ffff && used + kept as u64
            <= 0xffff_ffff && top.apparent <= u64::MAX - apparent && top.disk <= u64::MAX - disk
    }

    /// Add flags to a node.
    pub fn mark(&mut self, id: NodeId, flags: u16)
        requires
            old(self).wf(),
            old(self).tree.holds(id),
        ensures
            final(self).wf(),
            final(self).model() == marked(old(self).model(), id as int, flags),
            final(self).tree.root() == old(self).tree.root(),
            final(self).tree.missed() == old(self).tree.missed(),
            final(self).tree.partial() == old(self).tree.partial(),
    {
        let ghost before = self.tree.nodes();
        self.tree.add_flags(id, flags);
        proof {
            lemma_same_totals(before, self.tree.nodes(), self.wa@, self.wd@);
        }
    }

    /// Count `n` more entries that could not be read.
    pub fn miss(&mut self, n: u64)
        requires
            old(self).wf(),
            old(self).tree.missed() + n <= u64::MAX,
        ensures
            final(self).wf(),
            final(self).model() == old(self).model(),
            final(self).tree.root() == old(self).tree.root(),
            final(self).tree.missed() == old(self).tree.missed() + n,
            final(self).tree.partial() == old(self).tree.partial(),
    {
        self.tree.add_errors(n);
    }

    /// Add one node.
    pub fn add_node(
        &mut self,
        parent: NodeId,
        name: &[u8],
        meta: &Meta,
        flags: u16,
        counted: bool,
    ) -> (id: NodeId)
        requires
            old(self).wf(),
            old(self).tree.holds(parent),
            takes(
                old(self).model(),
                (Added {
                    parent: parent as int,
                    name: name@,
                    meta: *meta,
                    flags,
                    counted,
                    error: false,
                }),
            ),
        ensures
            final(self).wf(),
            id == old(self).tree.nodes().len(),
            final(self).wa@ == old(self).wa@.push(
                if counted {
                    meta.apparent as nat
                } else {
                    0
                },
            ),
            final(self).wd@ == old(self).wd@.push(
                if counted {
                    meta.disk as nat
                } else {
                    0
                },
            ),
            forall|error: bool|
                final(self).model() == #[trigger] with_added(
                    old(self).model(),
                    (Added {
                        parent: parent as int,
                        name: name@,
                        meta: *meta,
                        flags,
                        counted,
                        error,
                    }),
                ),
            final(self).tree.root() == old(self).tree.root(),
            final(self).tree.missed() == old(self).tree.missed(),
            final(self).tree.partial() == old(self).tree.partial(),
    {
        let ghost before = model_of(self.tree);
        let ghost apparent: u64 = if counted {
            meta.apparent
        } else {
            0
        };
        let ghost disk: u64 = if counted {
            meta.disk
        } else {
            0
        };
        proof {
            law_root_carries_all(
                self.tree.nodes(),
                self.tree.kids(),
                self.wa@,
                self.wd@,
                parent as int,
                apparent,
                disk,
            );
        }
        let id = self.tree.push_child(parent, name, meta, flags, counted);
        proof {
            self.wa@ = self.wa@.push(apparent as nat);
            self.wd@ = self.wd@.push(disk as nat);
            assert forall|error: bool|
                model_of(self.tree) == #[trigger] with_added(
                    before,
                    (Added {
                        parent: parent as int,
                        name: name@,
                        meta: *meta,
                        flags,
                        counted,
                        error,
                    }),
                ) by {
                let a = Added { parent: parent as int, name: name@, meta: *meta, flags, counted, error };
                assert(model_of(self.tree).nodes =~= with_added(before, a).nodes);
                assert(model_of(self.tree).kids =~= with_added(before, a).kids);
            }
        }
        id
    }
}

} // verus!
