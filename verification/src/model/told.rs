//! What a tree says of its nodes, told off the nodes themselves.

use vstd::prelude::*;

use crate::model::grow::{with_added, Added, Model};
use crate::model::{
    can_carry, clipped, first_stray, flags, flag_set, is_above, is_tree, links_in_range, linked,
    name_in_range, name_of, named, path_to, raw_fault, with_child, Kind, Meta, Node, NodeId,
};
use crate::path::{components, is_plain_name, law_joined_adds_a_component};

verus! {

/// A way up through a tree: from each node on it to the one that it lies in.
pub open spec fn is_way_up(nodes: Seq<Node>, way: Seq<int>) -> bool {
    &&& way.len() > 0
    &&& forall|k: int|
        0 <= k < way.len() - 1 ==> 0 < #[trigger] way[k] < nodes.len() && way[k + 1]
            == nodes[way[k]].parent
}

/// Whether a way leads up from one node to another.
pub open spec fn leads_up(nodes: Seq<Node>, way: Seq<int>, from: int, to: int) -> bool {
    is_way_up(nodes, way) && way[0] == from && way[way.len() - 1] == to
}

/// One node lies above another exactly where a way leads up to it.
pub proof fn law_what_lies_above(nodes: Seq<Node>, a: int, d: int)
    requires
        0 <= d < nodes.len(),
        forall|i: int| 0 < i < nodes.len() ==> (#[trigger] nodes[i]).parent < i,
    ensures
        is_above(nodes, a, d) == exists|way: Seq<int>| #[trigger] leads_up(nodes, way, d, a),
    decreases d,
{
    if a == d {
        assert(leads_up(nodes, seq![d], d, a));
    } else if d > 0 {
        let p = nodes[d].parent as int;
        law_what_lies_above(nodes, a, p);
        if exists|way: Seq<int>| #[trigger] leads_up(nodes, way, p, a) {
            let way = choose|way: Seq<int>| #[trigger] leads_up(nodes, way, p, a);
            let longer = seq![d] + way;
            assert forall|k: int| 0 <= k < longer.len() - 1 implies 0 < #[trigger] longer[k]
                < nodes.len() && longer[k + 1] == nodes[longer[k]].parent by {
                if k > 0 {
                    assert(longer[k] == way[k - 1] && longer[k + 1] == way[k]);
                }
            }
            assert(leads_up(nodes, longer, d, a));
        }
        if exists|way: Seq<int>| #[trigger] leads_up(nodes, way, d, a) {
            let way = choose|way: Seq<int>| #[trigger] leads_up(nodes, way, d, a);
            assert(way.len() > 1);
            let rest = way.drop_first();
            assert(way[0] == d && way[1] == nodes[way[0]].parent) by {
                assert(way[0int + 1] == nodes[way[0int]].parent);
            }
            assert forall|k: int| 0 <= k < rest.len() - 1 implies 0 < #[trigger] rest[k]
                < nodes.len() && rest[k + 1] == nodes[rest[k]].parent by {
                assert(rest[k] == way[k + 1] && rest[k + 1] == way[(k + 1) + 1]);
            }
            assert(leads_up(nodes, rest, p, a));
        }
    } else {
        assert forall|way: Seq<int>| !#[trigger] leads_up(nodes, way, d, a) by {
            if leads_up(nodes, way, d, a) {
                assert(way.len() > 1);
                assert(0 < way[0]);
            }
        }
    }
}

/// A new node weighs on everything that it lies in, and on nothing else: each node above it grows by
/// what it brings and by one item, and no other node changes but for the link to it.
pub proof fn law_a_node_weighs_on_what_it_lies_in(nodes: Seq<Node>, fresh: Node, i: int)
    requires
        0 <= i < nodes.len(),
        0 <= fresh.parent < nodes.len(),
        forall|k: int| 0 < k < nodes.len() ==> (#[trigger] nodes[k]).parent < k,
        can_carry(nodes, fresh.parent as int, fresh.apparent, fresh.disk),
    ensures
        with_child(nodes, fresh).len() == nodes.len() + 1,
        with_child(nodes, fresh)[nodes.len() as int] == fresh,
        ({
            let now = with_child(nodes, fresh)[i];
            let was = nodes[i];
            &&& now.mtime == was.mtime
            &&& now.parent == was.parent
            &&& now.next_sibling == was.next_sibling
            &&& now.name_off == was.name_off
            &&& now.name_len == was.name_len
            &&& now.flags == was.flags
            &&& i != fresh.parent ==> now.first_child == was.first_child
            &&& if exists|way: Seq<int>| #[trigger]
                leads_up(nodes, way, fresh.parent as int, i) {
                &&& now.apparent == was.apparent + fresh.apparent
                &&& now.disk == was.disk + fresh.disk
                &&& now.items == was.items + 1
            } else {
                &&& now.apparent == was.apparent
                &&& now.disk == was.disk
                &&& now.items == was.items
            }
        }),
{
    law_what_lies_above(nodes, i, fresh.parent as int);
}

/// A name is kept whole as long as its length can be, and cut off behind that.
pub proof fn law_names_are_kept(name: Seq<u8>)
    ensures
        name.len() <= 65535 ==> clipped(name) == name,
        name.len() > 65535 ==> clipped(name).len() == 65535 && clipped(name) == name.take(65535),
{
}

/// What a node is called is what it was added as, and nothing that is added later changes it.
pub proof fn law_a_node_keeps_its_name(m: Model, a: Added, i: int)
    requires
        named(m.nodes, m.names),
        m.names.len() + a.name.len() <= u32::MAX,
        a.name.len() <= 65535,
        0 <= i < m.nodes.len(),
    ensures
        name_of(with_added(m, a).nodes, with_added(m, a).names, m.nodes.len() as int) == a.name,
        name_of(with_added(m, a).nodes, with_added(m, a).names, i) == name_of(m.nodes, m.names, i),
{
    let to = with_added(m, a);
    assert(name_of(to.nodes, to.names, m.nodes.len() as int) =~= a.name);
    assert(m.nodes[i].name_off + m.nodes[i].name_len <= m.names.len());
    assert(name_of(to.nodes, to.names, i) =~= name_of(m.nodes, m.names, i));
}

/// The way to a node is the way to what it lies in, and then its name.
pub proof fn law_a_path_names_every_node_on_the_way(
    nodes: Seq<Node>,
    names: Seq<u8>,
    root: Seq<u8>,
    i: int,
)
    requires
        root.len() > 0,
        0 < i < nodes.len(),
        forall|k: int| 0 < k < nodes.len() ==> (#[trigger] nodes[k]).parent < k,
        forall|k: int| 0 < k < nodes.len() ==> is_plain_name(#[trigger] name_of(nodes, names, k)),
    ensures
        path_to(nodes, names, root, 0) == root,
        components(path_to(nodes, names, root, i)) == components(
            path_to(nodes, names, root, nodes[i].parent as int),
        ).push(name_of(nodes, names, i)),
{
    lemma_path_is_some(nodes, names, root, nodes[i].parent as int);
    assert(is_plain_name(name_of(nodes, names, i)));
    law_joined_adds_a_component(
        path_to(nodes, names, root, nodes[i].parent as int),
        name_of(nodes, names, i),
    );
}

proof fn lemma_path_is_some(nodes: Seq<Node>, names: Seq<u8>, root: Seq<u8>, i: int)
    requires
        root.len() > 0,
        0 <= i < nodes.len(),
        forall|k: int| 0 < k < nodes.len() ==> (#[trigger] nodes[k]).parent < k,
        forall|k: int| 0 < k < nodes.len() ==> is_plain_name(#[trigger] name_of(nodes, names, k)),
    ensures
        path_to(nodes, names, root, i).len() > 0,
    decreases i,
{
    if i > 0 {
        lemma_path_is_some(nodes, names, root, nodes[i].parent as int);
        assert(is_plain_name(name_of(nodes, names, i)));
    }
}

/// What is written of an entry in its flags, bit by bit.
pub proof fn law_what_each_flag_is()
    ensures
        Kind::Dir.as_flags() == 1,
        Kind::File.as_flags() == 0,
        Kind::Symlink.as_flags() == 2,
        Kind::Other.as_flags() == 4,
        flags::DIR == 1,
        flags::SYMLINK == 2,
        flags::OTHER == 4,
        flags::OTHER_FS == 8,
        flags::ERR == 16,
        flags::HARDLINK == 32,
        flags::HARDLINK_DUP == 64,
        flags::EXCLUDED == 128,
        flags::LOOP == 256,
        forall|a: u16, b: u16| #[trigger] flag_set(a, b) == (a & b != 0),
{
}

/// Of what could not be looked at, only the kind is known.
pub proof fn law_nothing_is_made_up_of_the_unknown(kind: Kind)
    ensures
        Meta::spec_unknown(kind) == (Meta {
            kind,
            apparent: 0,
            disk: 0,
            mtime: 0,
            dev: 0,
            ino: 0,
            nlink: 1,
        }),
{
}

/// Whether a link of a node leads nowhere, or to some node.
pub open spec fn leads_somewhere(link: NodeId, nodes: Seq<Node>) -> bool {
    link == 0xffff_ffff || link < nodes.len()
}

/// Nodes are taken for a tree exactly where there are some, and not too many to tell apart, where
/// every link leads to one of them and every name lies within the names, and where they hang together
/// as a tree.
pub proof fn law_what_is_taken_for_a_tree(nodes: Seq<Node>, names: Seq<u8>)
    ensures
        raw_fault(nodes, names) is None <==> {
            &&& 0 < nodes.len() <= 0xffff_ffff
            &&& forall|i: int|
                0 <= i < nodes.len() ==> {
                    &&& leads_somewhere((#[trigger] nodes[i]).parent, nodes)
                    &&& leads_somewhere(nodes[i].first_child, nodes)
                    &&& leads_somewhere(nodes[i].next_sibling, nodes)
                    &&& nodes[i].name_off + nodes[i].name_len <= names.len()
                }
            &&& exists|kids: Seq<Seq<NodeId>>| linked(nodes, kids)
        },
{
    lemma_stray(nodes, names, 0);
    let i = first_stray(nodes, names, 0);
    if i < nodes.len() {
        assert(!links_in_range(nodes[i], nodes.len()) || !name_in_range(nodes[i], names));
    } else {
        assert forall|k: int| 0 <= k < nodes.len() implies {
            &&& leads_somewhere((#[trigger] nodes[k]).parent, nodes)
            &&& leads_somewhere(nodes[k].first_child, nodes)
            &&& leads_somewhere(nodes[k].next_sibling, nodes)
            &&& nodes[k].name_off + nodes[k].name_len <= names.len()
        } by {
            assert(links_in_range(nodes[k], nodes.len()) && name_in_range(nodes[k], names));
        }
    }
    assert(is_tree(nodes) == exists|kids: Seq<Seq<NodeId>>| linked(nodes, kids));
}

proof fn lemma_stray(nodes: Seq<Node>, names: Seq<u8>, i: int)
    requires
        0 <= i <= nodes.len(),
    ensures
        i <= first_stray(nodes, names, i) <= nodes.len(),
        first_stray(nodes, names, i) < nodes.len() ==> !links_in_range(
            nodes[first_stray(nodes, names, i)],
            nodes.len(),
        ) || !name_in_range(nodes[first_stray(nodes, names, i)], names),
        forall|k: int|
            i <= k < first_stray(nodes, names, i) ==> links_in_range(
                #[trigger] nodes[k],
                nodes.len(),
            ) && name_in_range(nodes[k], names),
    decreases nodes.len() - i,
{
    if i < nodes.len() && links_in_range(nodes[i], nodes.len()) && name_in_range(nodes[i], names) {
        lemma_stray(nodes, names, i + 1);
    }
}

} // verus!
