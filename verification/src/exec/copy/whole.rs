//! What a copy of a tree takes in.
//!
//! Everything here is said of a source that nothing else writes to meanwhile, and of what listing
//! its directories and looking at its entries gives.

use vstd::prelude::*;

use super::{
    each_once, law_every_listed_name_is_taken, names_told, real_names, size_of, told_more, CopyTree,
};
use crate::exec::disk::{is_closed, is_copy, is_dir, is_like, top_of};
use crate::path::joined;
use crate::stat::Stat;

verus! {

/// A source: the ways from the directory that is copied to all that is in it, each with whether it
/// leads to a directory. The empty way leads to that directory itself.
pub open spec fn is_source(source: Map<Seq<Seq<u8>>, bool>) -> bool {
    &&& source.contains_key(Seq::empty()) && source[Seq::empty()]
    &&& forall|w: Seq<Seq<u8>>| #[trigger]
        source.contains_key(w) && w.len() > 0 ==> source.contains_key(w.drop_last())
            && source[w.drop_last()]
}

/// Where the copy of the entry goes that `w` leads to.
pub open spec fn place_of(root: Seq<u8>, w: Seq<Seq<u8>>) -> Seq<u8>
    decreases w.len(),
{
    if w.len() == 0 {
        root
    } else {
        joined(place_of(root, w.drop_last()), w.last())
    }
}

/// Whether no listing left out what is in the source, and no look took a directory for anything
/// else.
pub open spec fn is_true_of(copy: CopyTree, source: Map<Seq<Seq<u8>>, bool>) -> bool {
    &&& forall|w: Seq<Seq<u8>>| #[trigger]
        source.contains_key(w) && w.len() > 0 && copy.told@.contains_key(
            place_of(copy.temp_root@, w.drop_last()),
        ) ==> names_told(copy.told@, place_of(copy.temp_root@, w.drop_last())).contains(w.last())
    &&& forall|w: Seq<Seq<u8>>| #[trigger]
        source.contains_key(w) && source[w] ==> !copy.plain@.contains(
            place_of(copy.temp_root@, w),
        )
}

proof fn lemma_reached(copy: CopyTree, source: Map<Seq<Seq<u8>>, bool>, w: Seq<Seq<u8>>)
    requires
        copy.wf(),
        copy.all_settled(),
        is_source(source),
        is_true_of(copy, source),
        source.contains_key(w),
    ensures
        copy.settled@.contains(place_of(copy.temp_root@, w)),
        source[w] ==> copy.finished@.contains(place_of(copy.temp_root@, w)),
    decreases w.len(),
{
    let p = place_of(copy.temp_root@, w);
    if w.len() > 0 {
        let q = place_of(copy.temp_root@, w.drop_last());
        lemma_reached(copy, source, w.drop_last());
        assert(copy.finished@.contains(q));
        assert(names_told(copy.told@, q).contains(w.last()));
    }
    assert(copy.found@.contains(p));
    assert(copy.settled@.contains(p));
}

/// A copy that is done leaves nothing of its source out, however deep it lies: every entry has
/// been dealt with, and every directory sealed after all that is in it.
pub proof fn law_a_finished_copy_leaves_nothing_out(
    copy: CopyTree,
    source: Map<Seq<Seq<u8>>, bool>,
)
    requires
        copy.wf(),
        copy.all_settled(),
        is_source(source),
        is_true_of(copy, source),
    ensures
        forall|w: Seq<Seq<u8>>| #[trigger]
            source.contains_key(w) ==> {
                &&& copy.settled@.contains(place_of(copy.temp_root@, w))
                &&& source[w] ==> copy.finished@.contains(place_of(copy.temp_root@, w))
            },
{
    assert forall|w: Seq<Seq<u8>>| #[trigger] source.contains_key(w) implies {
        &&& copy.settled@.contains(place_of(copy.temp_root@, w))
        &&& source[w] ==> copy.finished@.contains(place_of(copy.temp_root@, w))
    } by {
        lemma_reached(copy, source, w);
    }
}

/// Whatever a directory was listed with, but for `.` and `..`, has been dealt with once a copy is
/// done, if what is known of that directory came of the listing.
pub proof fn law_a_finished_copy_deals_with_every_listed_name(
    copy: CopyTree,
    told: Map<Seq<u8>, Set<Seq<u8>>>,
    dir: Seq<u8>,
    names: Seq<Vec<u8>>,
    i: int,
)
    requires
        copy.wf(),
        copy.all_settled(),
        copy.told@.contains_key(dir),
        copy.told@[dir] == told_more(told, dir, real_names(names))[dir],
        0 <= i < names.len(),
        names[i]@ != seq![46u8],
        names[i]@ != seq![46u8, 46u8],
    ensures
        copy.settled@.contains(joined(dir, names[i]@)),
{
    law_every_listed_name_is_taken(names);
    let n = names[i]@;
    assert(real_names(names).to_set().contains(n));
    assert(names_told(copy.told@, dir).contains(n));
    assert(copy.found@.contains(joined(dir, n)));
}

/// A tree as it is copied: the ways to all that is in it, each with whether it leads to a directory.
pub open spec fn source_of(tree: Map<Seq<Seq<u8>>, Stat>) -> Map<Seq<Seq<u8>>, bool> {
    Map::new(|w: Seq<Seq<u8>>| tree.contains_key(w), |w: Seq<Seq<u8>>| is_dir(tree[w]))
}

/// Whether a copy that is done can have made the one tree of the other. What it dealt with is there,
/// and nothing is there that the source does not have: nothing else writes to either.
pub open spec fn copies(
    copy: CopyTree,
    a: Map<Seq<Seq<u8>>, Stat>,
    b: Map<Seq<Seq<u8>>, Stat>,
) -> bool {
    &&& copy.wf()
    &&& copy.all_settled()
    &&& is_true_of(copy, source_of(a))
    &&& forall|w: Seq<Seq<u8>>| #[trigger] b.contains_key(w) ==> a.contains_key(w)
    &&& forall|w: Seq<Seq<u8>>| #[trigger]
        a.contains_key(w) && copy.settled@.contains(place_of(copy.temp_root@, w))
            ==> b.contains_key(w) && is_like(a[w], b[w])
}

/// What a copy that is done has made is a whole copy of the tree.
pub proof fn law_a_finished_copy_is_whole(
    copy: CopyTree,
    a: Map<Seq<Seq<u8>>, Stat>,
    b: Map<Seq<Seq<u8>>, Stat>,
)
    requires
        is_closed(a),
        top_of(a) matches Some(x) && is_dir(x),
        copies(copy, a, b),
    ensures
        is_copy(a, b),
{
    let source = source_of(a);
    assert(is_source(source)) by {
        reveal(is_closed);
        assert forall|w: Seq<Seq<u8>>| #[trigger] source.contains_key(w) && w.len() > 0 implies
            source.contains_key(w.drop_last()) && source[w.drop_last()] by {
            assert(a.contains_key(w));
        }
    }
    law_a_finished_copy_leaves_nothing_out(copy, source);
    assert forall|w: Seq<Seq<u8>>| #[trigger] a.contains_key(w) implies b.contains_key(w)
        && is_like(a[w], b[w]) by {
        assert(source.contains_key(w));
    }
    assert(a.dom() =~= b.dom()) by {
        assert forall|w: Seq<Seq<u8>>| a.dom().contains(w) == b.dom().contains(w) by {
            assert(a.contains_key(w) ==> b.contains_key(w));
            assert(b.contains_key(w) ==> a.contains_key(w));
        }
    }
}

/// What a copy says it has copied is what the files come to that it copied, and of the names of one
/// file no more than one is among them: copying it twice would double its size.
pub proof fn law_a_file_counts_once_however_many_names_it_has(copy: CopyTree)
    requires
        copy.wf(),
    ensures
        copy.copied == size_of(copy.copies@),
        each_once(copy.copies@),
{
}

} // verus!
