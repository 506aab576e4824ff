//! Moving about in the listing.

use std::collections::HashSet;

use vstd::prelude::*;

use crate::model::{flags, NodeId, Tree, ROOT};
use crate::tui::app::ids::{ids_in, lemma_ids_exist, sorted_set};
use crate::tui::app::{all_held, is_sound, App, Face};

verus! {

broadcast use vstd::std_specs::hash::group_hash_axioms;

/// Where `id` first stands in `rows` from `i` on, or the end.
pub open spec fn position(rows: Seq<NodeId>, id: NodeId, i: int) -> int
    decreases rows.len() - i,
{
    if i >= rows.len() || rows[i] == id {
        i
    } else {
        position(rows, id, i + 1)
    }
}

/// Those of the first `n` rows that are marked.
pub open spec fn marked_among(rows: Seq<NodeId>, marks: Set<NodeId>, n: int) -> Seq<NodeId>
    decreases n,
{
    if n <= 0 {
        Seq::empty()
    } else if marks.contains(rows[n - 1]) {
        marked_among(rows, marks, n - 1).push(rows[n - 1])
    } else {
        marked_among(rows, marks, n - 1)
    }
}

/// Those of the first `n` of some nodes that are not listed.
pub open spec fn unlisted(ids: Seq<NodeId>, rows: Seq<NodeId>, n: int) -> Seq<NodeId>
    decreases n,
{
    if n <= 0 {
        Seq::empty()
    } else if rows.contains(ids[n - 1]) {
        unlisted(ids, rows, n - 1)
    } else {
        unlisted(ids, rows, n - 1).push(ids[n - 1])
    }
}

pub open spec fn toggled(marks: Set<NodeId>, id: NodeId) -> Set<NodeId> {
    if marks.contains(id) {
        marks.remove(id)
    } else {
        marks.insert(id)
    }
}

/// Whether a node can be gone into. Only real directories can: a symlink to one is a link, not a
/// place, and an excluded or unreadable directory has no children to show.
pub open spec fn is_place(t: Tree, id: NodeId) -> bool {
    t.nodes()[id as int].carries(flags::DIR) && !t.nodes()[id as int].carries(flags::SYMLINK)
        && t.kids()[id as int].len() > 0
}

impl Face {
    /// With the cursor on the row `n`, or on the last one.
    pub open spec fn at(self, n: int) -> Face {
        Face {
            cursor: if n < 0 || self.rows.len() == 0 {
                0
            } else if n >= self.rows.len() {
                (self.rows.len() - 1) as usize
            } else {
                n as usize
            },
            ..self
        }
    }

    /// One row further down, if there is one.
    pub open spec fn down_one(self) -> Face {
        if self.cursor + 1 < self.rows.len() {
            Face { cursor: (self.cursor + 1) as usize, ..self }
        } else {
            self
        }
    }

    pub open spec fn entered(self) -> Face {
        match self.chosen() {
            Some(id) => if is_place(self.tree, id) {
                (Face {
                    remembered: self.remembered.insert(self.dir, self.cursor),
                    dir: id,
                    cursor: 0,
                    ..self
                }).relisted()
            } else {
                self
            },
            None => self,
        }
    }

    /// In the directory around this one, with the cursor on this one again.
    pub open spec fn left(self) -> Face {
        if self.dir == ROOT {
            self
        } else {
            let child = self.dir;
            let up = self.tree.nodes()[child as int].parent;
            let there = (Face { dir: up, ..self }).relisted();
            let was = self.remembered[up];
            let found = position(there.rows, child, 0);
            Face {
                cursor: if self.remembered.contains_key(up) && was < there.rows.len()
                    && there.rows[was as int] == child {
                    was
                } else if found < there.rows.len() {
                    found as usize
                } else {
                    0
                },
                remembered: self.remembered.remove(up),
                ..there
            }
        }
    }

    pub open spec fn mark_toggled(self) -> Face {
        match self.chosen() {
            Some(id) => (Face { marks: toggled(self.marks, id), ..self }).down_one(),
            None => self,
        }
    }

    /// What an action applies to: everything marked, or the entry under the cursor. What is listed
    /// comes in the order it is listed, and before what was marked elsewhere.
    pub open spec fn aims(self) -> Seq<NodeId> {
        if self.marks.len() == 0 {
            match self.chosen() {
                Some(id) => seq![id],
                None => Seq::empty(),
            }
        } else {
            let ids = ids_in(self.marks);
            marked_among(self.rows, self.marks, self.rows.len() as int) + unlisted(
                ids,
                self.rows,
                ids.len() as int,
            )
        }
    }
}

proof fn lemma_marked_among(rows: Seq<NodeId>, marks: Set<NodeId>, n: int)
    requires
        0 <= n <= rows.len(),
    ensures
        forall|x: NodeId| #[trigger]
            marked_among(rows, marks, n).contains(x) <==> marks.contains(x) && rows.take(
                n,
            ).contains(x),
    decreases n,
{
    if n > 0 {
        lemma_marked_among(rows, marks, n - 1);
        let before = marked_among(rows, marks, n - 1);
        let now = marked_among(rows, marks, n);
        assert(rows.take(n) =~= rows.take(n - 1).push(rows[n - 1]));
        assert forall|x: NodeId| #[trigger] now.contains(x) <==> marks.contains(x) && rows.take(
            n,
        ).contains(x) by {
            vstd::seq_lib::lemma_seq_contains_after_push::<NodeId>(before, rows[n - 1], x);
            vstd::seq_lib::lemma_seq_contains_after_push::<NodeId>(
                rows.take(n - 1),
                rows[n - 1],
                x,
            );
        }
    }
}

proof fn lemma_unlisted(ids: Seq<NodeId>, rows: Seq<NodeId>, n: int)
    requires
        0 <= n <= ids.len(),
    ensures
        forall|x: NodeId| #[trigger]
            unlisted(ids, rows, n).contains(x) <==> !rows.contains(x) && ids.take(n).contains(x),
    decreases n,
{
    if n > 0 {
        lemma_unlisted(ids, rows, n - 1);
        let before = unlisted(ids, rows, n - 1);
        let now = unlisted(ids, rows, n);
        assert(ids.take(n) =~= ids.take(n - 1).push(ids[n - 1]));
        assert forall|x: NodeId| #[trigger] now.contains(x) <==> !rows.contains(x) && ids.take(
            n,
        ).contains(x) by {
            vstd::seq_lib::lemma_seq_contains_after_push::<NodeId>(before, ids[n - 1], x);
            vstd::seq_lib::lemma_seq_contains_after_push::<NodeId>(ids.take(n - 1), ids[n - 1], x);
        }
    }
}

/// Once anything is marked, an action applies to every mark, wherever in the tree it was made, and
/// to nothing else.
pub proof fn law_every_mark_is_acted_on(face: Face)
    requires
        face.marks.finite(),
        face.marks.len() > 0,
    ensures
        face.aims().to_set() == face.marks,
{
    let ids = ids_in(face.marks);
    let here = marked_among(face.rows, face.marks, face.rows.len() as int);
    let elsewhere = unlisted(ids, face.rows, ids.len() as int);
    lemma_ids_exist(face.marks);
    lemma_marked_among(face.rows, face.marks, face.rows.len() as int);
    lemma_unlisted(ids, face.rows, ids.len() as int);
    assert(face.rows.take(face.rows.len() as int) =~= face.rows);
    assert(ids.take(ids.len() as int) =~= ids);
    assert forall|x: NodeId| (here + elsewhere).contains(x) <==> #[trigger] face.marks.contains(
        x,
    ) by {
        vstd::seq_lib::lemma_seq_concat_contains_all_elements(here, elsewhere, x);
        assert(ids.to_set().contains(x) <==> ids.contains(x));
        assert(here.contains(x) <==> face.marks.contains(x) && face.rows.contains(x));
    }
    assert((here + elsewhere).to_set() =~= face.marks);
}

proof fn lemma_position(rows: Seq<NodeId>, id: NodeId, i: int)
    requires
        0 <= i <= rows.len(),
    ensures
        i <= position(rows, id, i) <= rows.len(),
    decreases rows.len() - i,
{
    if i < rows.len() && rows[i] != id {
        lemma_position(rows, id, i + 1);
    }
}

impl App {
    /// Puts the cursor on the row `n`, or on the last one.
    pub(crate) fn go_to(&mut self, n: usize)
        requires
            old(self).wf(),
        ensures
            final(self)@ == old(self)@.at(n as int),
            final(self).wf(),
    {
        let len: usize = self.rows.len();
        self.cursor = if len == 0 {
            0
        } else if n >= len {
            len - 1
        } else {
            n
        };
        proof {
            assert(self@ =~= old(self)@.at(n as int));
        }
    }

    pub(crate) fn go_down(&mut self)
        requires
            old(self).wf(),
        ensures
            final(self)@ == old(self)@.down_one(),
            final(self).wf(),
    {
        if self.cursor < self.rows.len() && self.cursor + 1 < self.rows.len() {
            self.cursor = self.cursor + 1;
        }
        proof {
            assert(self@ =~= old(self)@.down_one());
        }
    }

    pub(crate) fn enter(&mut self)
        requires
            old(self).wf(),
        ensures
            final(self)@ == old(self)@.entered(),
            final(self).wf(),
    {
        let id: NodeId = match self.selected() {
            Some(id) => id,
            None => return ,
        };
        proof {
            reveal(is_sound);
        }
        let node = self.tree.node(id);
        if !node.is_dir() || node.has(flags::SYMLINK) {
            return ;
        }
        if self.tree.child_ids(id).len() == 0 {
            return ;
        }
        self.remembered.insert(self.dir, self.cursor);
        self.dir = id;
        self.cursor = 0;
        let ghost before = Face {
            remembered: old(self)@.remembered.insert(old(self)@.dir, old(self)@.cursor),
            dir: id,
            cursor: 0,
            ..old(self)@
        };
        proof {
            assert(self@ =~= before);
        }
        self.rebuild_rows();
    }

    pub(crate) fn leave(&mut self)
        requires
            old(self).wf(),
        ensures
            final(self)@ == old(self)@.left(),
            final(self).wf(),
    {
        if self.dir == ROOT {
            return ;
        }
        let child: NodeId = self.dir;
        let up: NodeId = self.tree.node(child).parent;
        proof {
            reveal(is_sound);
            assert(self.tree.nodes()[child as int].parent < child);
        }
        self.dir = up;
        let ghost moved = Face { dir: up, ..old(self)@ };
        proof {
            assert(self@ =~= moved);
        }
        self.rebuild_rows();
        let ghost there = moved.relisted();
        let was = self.remembered.remove(&up);
        let mut at: usize = 0;
        while at < self.rows.len() && self.rows[at] != child
            invariant
                at <= self.rows@.len(),
                position(self.rows@, child, 0) == position(self.rows@, child, at as int),
            decreases self.rows.len() - at,
        {
            at += 1;
        }
        proof {
            lemma_position(self.rows@, child, 0);
        }
        let found: usize = if at < self.rows.len() {
            at
        } else {
            0
        };
        self.cursor = match was {
            Some(i) => if i < self.rows.len() && self.rows[i] == child {
                i
            } else {
                found
            },
            None => found,
        };
        proof {
            assert(self@.remembered =~= old(self)@.remembered.remove(up));
            assert(self@ =~= old(self)@.left());
        }
    }

    pub(crate) fn toggle_mark(&mut self)
        requires
            old(self).wf(),
        ensures
            final(self)@ == old(self)@.mark_toggled(),
            final(self).wf(),
    {
        let id: NodeId = match self.selected() {
            Some(id) => id,
            None => return ,
        };
        if !self.marks.remove(&id) {
            self.marks.insert(id);
        }
        proof {
            assert(self.marks@ =~= toggled(old(self).marks@, id));
            assert(self@ =~= (Face { marks: toggled(old(self)@.marks, id), ..old(self)@ }));
        }
        self.go_down();
    }

    /// What an action applies to: everything marked, or the entry under the cursor.
    pub(crate) fn targets(&self) -> (r: Vec<NodeId>)
        requires
            self.wf(),
        ensures
            r@ == self@.aims(),
            all_held(*self.tree, r@),
    {
        let mut out: Vec<NodeId> = Vec::new();
        if self.marks.len() == 0 {
            match self.selected() {
                Some(id) => {
                    out.push(id);
                },
                None => {},
            }
            proof {
                assert(out@ =~= self@.aims());
            }
            return out;
        }
        let mut listed: HashSet<NodeId> = HashSet::new();
        let mut i: usize = 0;
        while i < self.rows.len()
            invariant
                i <= self.rows@.len(),
                self.wf(),
                out@ == marked_among(self.rows@, self.marks@, i as int),
                all_held(*self.tree, out@),
                forall|x: NodeId| #[trigger]
                    listed@.contains(x) <==> self.marks@.contains(x) && self.rows@.take(
                        i as int,
                    ).contains(x),
            decreases self.rows.len() - i,
        {
            let id: NodeId = self.rows[i];
            let ghost before = listed@;
            proof {
                assert(self@.rows[i as int] == id);
                assert(self.rows@.take(i + 1) =~= self.rows@.take(i as int).push(id));
            }
            if self.marks.contains(&id) {
                out.push(id);
                listed.insert(id);
            }
            proof {
                assert forall|x: NodeId| #[trigger] listed@.contains(x) <==> self.marks@.contains(x)
                    && self.rows@.take(i + 1).contains(x) by {
                    vstd::seq_lib::lemma_seq_contains_after_push::<NodeId>(
                        self.rows@.take(i as int),
                        id,
                        x,
                    );
                    assert(before.contains(x) <==> self.marks@.contains(x) && self.rows@.take(
                        i as int,
                    ).contains(x));
                }
            }
            i += 1;
        }
        proof {
            assert(self.rows@.take(i as int) =~= self.rows@);
        }
        let ghost here = out@;
        let ids = sorted_set(&self.marks);
        let mut j: usize = 0;
        proof {
            assert(out@ =~= here + unlisted(ids@, self.rows@, 0));
        }
        while j < ids.len()
            invariant
                j <= ids@.len(),
                self.wf(),
                ids@.to_set() == self.marks@,
                out@ == here + unlisted(ids@, self.rows@, j as int),
                all_held(*self.tree, out@),
                forall|x: NodeId| #[trigger]
                    listed@.contains(x) <==> self.marks@.contains(x) && self.rows@.contains(x),
            decreases ids.len() - j,
        {
            let id: NodeId = ids[j];
            proof {
                assert(ids@.to_set().contains(id));
                assert(self@.marks.contains(id));
            }
            if !listed.contains(&id) {
                out.push(id);
            }
            proof {
                assert(out@ =~= here + unlisted(ids@, self.rows@, j + 1));
            }
            j += 1;
        }
        out
    }
}

} // verus!
