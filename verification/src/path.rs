//! Paths as the byte strings the system hands out, read by their components.
//!
//! A path is `/` separated. Empty pieces and `.` pieces carry no meaning, except that a relative
//! path may start with `.`, and a leading `/` is a component of its own. Two paths are the same
//! when their components are, however they are spelled.

use vstd::prelude::*;

use crate::text::{copy_bytes, same_bytes};

verus! {

pub const SEP: u8 = 47;

pub const DOT: u8 = 46;

/// The first separator at or after `i`, or the end.
pub open spec fn piece_end(p: Seq<u8>, i: int) -> int
    decreases p.len() - i,
{
    if i < 0 || i >= p.len() || p[i] == SEP {
        i
    } else {
        piece_end(p, i + 1)
    }
}

/// Whether the piece `p[i..e]` is a component.
pub open spec fn is_component(p: Seq<u8>, i: int, e: int) -> bool {
    i < e && !(i > 0 && e == i + 1 && p[i] == DOT)
}

/// Where each component from `i` on starts and ends.
pub open spec fn spans_from(p: Seq<u8>, i: int) -> Seq<(int, int)>
    decreases p.len() + 1 - i,
    via spans_from_decreases
{
    if i < 0 || i >= p.len() {
        Seq::empty()
    } else {
        let e = piece_end(p, i);
        let rest = spans_from(p, e + 1);
        if is_component(p, i, e) {
            seq![(i, e)] + rest
        } else {
            rest
        }
    }
}

#[via_fn]
proof fn spans_from_decreases(p: Seq<u8>, i: int) {
    if 0 <= i < p.len() {
        lemma_piece_end(p, i);
    }
}

/// Where each component of a path starts and ends; the root is the leading `/`.
pub open spec fn spans(p: Seq<u8>) -> Seq<(int, int)> {
    if p.len() > 0 && p[0] == SEP {
        seq![(0, 1)] + spans_from(p, 1)
    } else {
        spans_from(p, 0)
    }
}

/// The components of a path, in order.
pub open spec fn components(p: Seq<u8>) -> Seq<Seq<u8>> {
    spans(p).map_values(|s: (int, int)| p.subrange(s.0, s.1))
}

/// Whether two paths name the same place.
pub open spec fn same_path(a: Seq<u8>, b: Seq<u8>) -> bool {
    components(a) == components(b)
}

/// Whether `path` is `dir` or lies below it.
pub open spec fn starts_with(path: Seq<u8>, dir: Seq<u8>) -> bool {
    components(dir).is_prefix_of(components(path))
}

/// Whether `path` lies strictly below `dir`.
pub open spec fn inside(path: Seq<u8>, dir: Seq<u8>) -> bool {
    starts_with(path, dir) && !same_path(path, dir)
}

pub open spec fn is_absolute(p: Seq<u8>) -> bool {
    p.len() > 0 && p[0] == SEP
}

/// `name` added below `p`, as one path. An absolute name replaces it.
pub open spec fn joined(p: Seq<u8>, name: Seq<u8>) -> Seq<u8> {
    if is_absolute(name) {
        name
    } else if p.len() > 0 && p.last() != SEP {
        p.push(SEP) + name
    } else {
        p + name
    }
}

/// The directory a path is in. The root and the empty path are in none.
pub open spec fn parent_of(p: Seq<u8>) -> Option<Seq<u8>> {
    let s = spans(p);
    if s.len() == 0 || (s.len() == 1 && is_absolute(p)) {
        None
    } else if s.len() == 1 {
        Some(Seq::empty())
    } else {
        Some(p.subrange(0, s[s.len() - 2].1))
    }
}

pub open spec fn is_dots(c: Seq<u8>) -> bool {
    (c.len() == 1 && c[0] == DOT) || (c.len() == 2 && c[0] == DOT && c[1] == DOT)
}

/// The last component, where it is a name and not `/`, `.` or `..`.
pub open spec fn file_name_of(p: Seq<u8>) -> Option<Seq<u8>> {
    let c = components(p);
    if c.len() == 0 || (c.len() == 1 && is_absolute(p)) || is_dots(c.last()) {
        None
    } else {
        Some(c.last())
    }
}

proof fn lemma_piece_end(p: Seq<u8>, i: int)
    requires
        0 <= i <= p.len(),
    ensures
        i <= piece_end(p, i) <= p.len(),
        i < p.len() && p[i] != SEP ==> i < piece_end(p, i),
    decreases p.len() - i,
{
    if i < p.len() && p[i] != SEP {
        lemma_piece_end(p, i + 1);
    }
}

proof fn lemma_spans_from(p: Seq<u8>, i: int)
    requires
        0 <= i,
    ensures
        forall|k: int|
            0 <= k < spans_from(p, i).len() ==> i <= (#[trigger] spans_from(p, i)[k]).0
                && spans_from(p, i)[k].0 < spans_from(p, i)[k].1 <= p.len(),
    decreases p.len() + 1 - i,
{
    if i < p.len() {
        lemma_piece_end(p, i);
        let e = piece_end(p, i);
        lemma_spans_from(p, e + 1);
        let rest = spans_from(p, e + 1);
        assert forall|k: int| 0 <= k < spans_from(p, i).len() implies i <= (
        #[trigger] spans_from(p, i)[k]).0 && spans_from(p, i)[k].0 < spans_from(p, i)[k].1
            <= p.len() by {
            if is_component(p, i, e) {
                if k > 0 {
                    assert(spans_from(p, i)[k] == rest[k - 1]);
                }
            } else {
                assert(spans_from(p, i)[k] == rest[k]);
            }
        }
    }
}

/// Every component is a non-empty stretch of the path.
pub proof fn lemma_spans(p: Seq<u8>)
    ensures
        forall|k: int|
            0 <= k < spans(p).len() ==> 0 <= (#[trigger] spans(p)[k]).0 < spans(p)[k].1 <= p.len(),
{
    if p.len() > 0 && p[0] == SEP {
        lemma_spans_from(p, 1);
    } else {
        lemma_spans_from(p, 0);
    }
}

fn component_spans(p: &[u8]) -> (r: Vec<(usize, usize)>)
    ensures
        r@.len() == spans(p@).len(),
        forall|k: int|
            0 <= k < r@.len() ==> (#[trigger] r@[k]).0 == spans(p@)[k].0 && r@[k].1 == spans(
                p@,
            )[k].1 && r@[k].0 < r@[k].1 && r@[k].1 <= p@.len(),
{
    let mut out: Vec<(usize, usize)> = Vec::new();
    let ghost mut done: Seq<(int, int)> = Seq::empty();
    let mut i: usize = 0;
    if p.len() > 0 && p[0] == SEP {
        out.push((0, 1));
        i = 1;
        proof {
            done = seq![(0int, 1int)];
        }
    }
    proof {
        assert(done + spans_from(p@, i as int) =~= spans(p@));
    }
    while i < p.len()
        invariant
            done + spans_from(p@, i as int) == spans(p@),
            out@.len() == done.len(),
            forall|k: int|
                0 <= k < out@.len() ==> (#[trigger] out@[k]).0 == done[k].0 && out@[k].1
                    == done[k].1 && out@[k].0 < out@[k].1 && out@[k].1 <= p@.len(),
        decreases p.len() + 1 - i,
    {
        let start: usize = i;
        while i < p.len() && p[i] != SEP
            invariant
                start <= i <= p@.len(),
                piece_end(p@, start as int) == piece_end(p@, i as int),
            decreases p.len() - i,
        {
            i += 1;
        }
        proof {
            assert(piece_end(p@, start as int) == i);
        }
        let ghost before = done;
        if start < i && !(start > 0 && i == start + 1 && p[start] == DOT) {
            out.push((start, i));
            proof {
                done = done.push((start as int, i as int));
                assert(before + (seq![(start as int, i as int)] + spans_from(p@, i + 1)) =~= done
                    + spans_from(p@, i + 1));
            }
        }
        if i == p.len() {
            proof {
                assert(spans_from(p@, i + 1) =~= Seq::<(int, int)>::empty());
                assert(done + spans_from(p@, i as int) =~= done + spans_from(p@, i + 1));
            }
        } else {
            i += 1;
        }
    }
    proof {
        assert(done =~= spans(p@));
    }
    out
}

/// The components of a path.
pub fn component_list(p: &[u8]) -> (r: Vec<Vec<u8>>)
    ensures
        r@.map_values(|c: Vec<u8>| c@) == components(p@),
{
    let at = component_spans(p);
    let mut out: Vec<Vec<u8>> = Vec::new();
    let mut i: usize = 0;
    while i < at.len()
        invariant
            i <= at@.len(),
            at@.len() == spans(p@).len(),
            forall|k: int|
                0 <= k < at@.len() ==> (#[trigger] at@[k]).0 == spans(p@)[k].0 && at@[k].1 == spans(
                    p@,
                )[k].1 && at@[k].0 < at@[k].1 && at@[k].1 <= p@.len(),
            out@.map_values(|c: Vec<u8>| c@) == components(p@).take(i as int),
        decreases at.len() - i,
    {
        let (s, e) = at[i];
        let part = copy_bytes(&p[s..e]);
        let ghost before = out@;
        out.push(part);
        proof {
            assert(out@.map_values(|c: Vec<u8>| c@) =~= before.map_values(|c: Vec<u8>| c@).push(
                part@,
            ));
            assert(components(p@)[i as int] == part@);
            assert(out@.map_values(|c: Vec<u8>| c@) =~= components(p@).take(i + 1));
        }
        i += 1;
    }
    proof {
        assert(components(p@).take(i as int) =~= components(p@));
    }
    out
}

/// How many components a path has.
pub fn component_count(p: &[u8]) -> (r: usize)
    ensures
        r == components(p@).len(),
{
    component_spans(p).len()
}

/// Whether `dir`'s components start `path`'s.
pub fn path_starts_with(path: &[u8], dir: &[u8]) -> (r: bool)
    ensures
        r == starts_with(path@, dir@),
{
    let a = component_spans(path);
    let b = component_spans(dir);
    if b.len() > a.len() {
        return false;
    }
    let mut i: usize = 0;
    while i < b.len()
        invariant
            i <= b@.len() <= a@.len(),
            a@.len() == components(path@).len(),
            b@.len() == components(dir@).len(),
            forall|k: int|
                0 <= k < a@.len() ==> (#[trigger] a@[k]).0 == spans(path@)[k].0 && a@[k].1 == spans(
                    path@,
                )[k].1 && a@[k].0 < a@[k].1 && a@[k].1 <= path@.len(),
            forall|k: int|
                0 <= k < b@.len() ==> (#[trigger] b@[k]).0 == spans(dir@)[k].0 && b@[k].1 == spans(
                    dir@,
                )[k].1 && b@[k].0 < b@[k].1 && b@[k].1 <= dir@.len(),
            forall|k: int| 0 <= k < i ==> components(path@)[k] == #[trigger] components(dir@)[k],
        decreases b.len() - i,
    {
        let (s, e) = a[i];
        let (t, f) = b[i];
        if !same_bytes(&path[s..e], &dir[t..f]) {
            proof {
                assert(components(path@)[i as int] != components(dir@)[i as int]);
            }
            return false;
        }
        i += 1;
    }
    proof {
        assert(components(path@).take(b@.len() as int) =~= components(dir@));
    }
    true
}

/// Whether two paths have the same components.
pub fn paths_match(a: &[u8], b: &[u8]) -> (r: bool)
    ensures
        r == same_path(a@, b@),
{
    let r = component_count(a) == component_count(b) && path_starts_with(a, b);
    proof {
        if r {
            assert(components(a@) =~= components(b@));
        }
    }
    r
}

/// Whether `path` lies strictly below `dir`.
pub fn is_inside(path: &[u8], dir: &[u8]) -> (r: bool)
    ensures
        r == inside(path@, dir@),
{
    path_starts_with(path, dir) && !paths_match(path, dir)
}

/// `name` added below `p`.
pub fn join(p: &[u8], name: &[u8]) -> (r: Vec<u8>)
    ensures
        r@ == joined(p@, name@),
{
    if name.len() > 0 && name[0] == SEP {
        return copy_bytes(name);
    }
    let mut out = copy_bytes(p);
    if p.len() > 0 && p[p.len() - 1] != SEP {
        out.push(SEP);
    }
    out.extend_from_slice(name);
    proof {
        assert(out@ =~= joined(p@, name@));
    }
    out
}

/// The directory `p` is in.
pub fn parent(p: &[u8]) -> (r: Option<Vec<u8>>)
    ensures
        match r {
            Some(d) => parent_of(p@) == Some(d@),
            None => parent_of(p@) is None,
        },
{
    let s = component_spans(p);
    if s.len() == 0 || (s.len() == 1 && p[0] == SEP) {
        return None;
    }
    if s.len() == 1 {
        return Some(Vec::new());
    }
    Some(copy_bytes(&p[0..s[s.len() - 2].1]))
}

/// The last component of `p`, where it is a name.
pub fn file_name(p: &[u8]) -> (r: Option<Vec<u8>>)
    ensures
        match r {
            Some(n) => file_name_of(p@) == Some(n@),
            None => file_name_of(p@) is None,
        },
{
    let s = component_spans(p);
    if s.len() == 0 || (s.len() == 1 && p[0] == SEP) {
        return None;
    }
    let (start, end) = s[s.len() - 1];
    let name = copy_bytes(&p[start..end]);
    proof {
        assert(components(p@).last() =~= name@);
    }
    if (name.len() == 1 && name[0] == DOT) || (name.len() == 2 && name[0] == DOT && name[1] == DOT) {
        return None;
    }
    Some(name)
}

/// Whether `name` can be one component: it is not empty, not `.`, and holds no separator.
pub open spec fn is_plain_name(name: Seq<u8>) -> bool {
    name.len() > 0 && !name.contains(SEP) && name != seq![DOT]
}

proof fn lemma_piece_prefix(p: Seq<u8>, q: Seq<u8>, i: int)
    requires
        0 <= i <= p.len() < q.len(),
        forall|k: int| 0 <= k < p.len() ==> q[k] == p[k],
        q[p.len() as int] == SEP,
    ensures
        piece_end(q, i) == piece_end(p, i),
    decreases p.len() - i,
{
    if i < p.len() && p[i] != SEP {
        lemma_piece_prefix(p, q, i + 1);
    }
}

proof fn lemma_piece_to_end(q: Seq<u8>, i: int)
    requires
        0 <= i <= q.len(),
        forall|k: int| i <= k < q.len() ==> q[k] != SEP,
    ensures
        piece_end(q, i) == q.len(),
    decreases q.len() - i,
{
    if i < q.len() {
        lemma_piece_to_end(q, i + 1);
    }
}

/// The components of a path with a separator behind it are the path's own, then those behind the
/// separator.
proof fn lemma_spans_split(p: Seq<u8>, q: Seq<u8>, i: int)
    requires
        0 <= i,
        p.len() < q.len(),
        forall|k: int| 0 <= k < p.len() ==> q[k] == p[k],
        q[p.len() as int] == SEP,
    ensures
        i <= p.len() ==> spans_from(q, i) == spans_from(p, i) + spans_from(q, p.len() as int + 1),
    decreases p.len() + 1 - i,
{
    if i < p.len() {
        lemma_piece_prefix(p, q, i);
        lemma_piece_end(p, i);
        let e = piece_end(p, i);
        lemma_spans_split(p, q, e + 1);
        if e == p.len() {
            assert(spans_from(p, e + 1) =~= Seq::<(int, int)>::empty());
            assert(spans_from(q, e + 1) =~= spans_from(p, e + 1) + spans_from(q, p.len() as int + 1));
        }
        assert(spans_from(q, i) =~= spans_from(p, i) + spans_from(q, p.len() as int + 1));
    } else if i == p.len() {
        lemma_piece_prefix(p, q, i);
        assert(piece_end(q, i) == i);
        assert(spans_from(p, i) =~= Seq::<(int, int)>::empty());
        assert(spans_from(q, i) =~= spans_from(p, i) + spans_from(q, p.len() as int + 1));
    }
}

/// Text that holds no separator, as the last piece of a path.
proof fn lemma_last_piece(q: Seq<u8>, i: int)
    requires
        0 < i <= q.len(),
        forall|k: int| i <= k < q.len() ==> q[k] != SEP,
    ensures
        spans_from(q, i) == (if is_component(q, i, q.len() as int) {
            seq![(i, q.len() as int)]
        } else {
            Seq::empty()
        }),
{
    lemma_piece_to_end(q, i);
    if i < q.len() {
        assert(spans_from(q, q.len() as int + 1) =~= Seq::<(int, int)>::empty());
        assert(spans_from(q, i) =~= (if is_component(q, i, q.len() as int) {
            seq![(i, q.len() as int)]
        } else {
            Seq::empty()
        }));
    } else {
        assert(spans_from(q, i) =~= Seq::<(int, int)>::empty());
    }
}

proof fn lemma_components_split(p: Seq<u8>, name: Seq<u8>)
    requires
        !name.contains(SEP),
        p.len() > 0,
    ensures
        components(p.push(SEP) + name) == (if name.len() == 0 || name == seq![DOT] {
            components(p)
        } else {
            components(p).push(name)
        }),
{
    let q = p.push(SEP) + name;
    let n = p.len() as int;
    assert forall|k: int| n + 1 <= k < q.len() implies q[k] != SEP by {
        assert(q[k] == name[k - n - 1]);
        assert(name.contains(name[k - n - 1]));
    }
    lemma_last_piece(q, n + 1);
    assert(q.subrange(n + 1, q.len() as int) =~= name);
    if name.len() == 1 && name[0] == DOT {
        assert(name =~= seq![DOT]);
    }
    lemma_spans(p);
    if p[0] == SEP {
        lemma_spans_split(p, q, 1);
        assert(spans(q) =~= spans(p) + spans_from(q, n + 1));
    } else {
        lemma_spans_split(p, q, 0);
        assert(spans(q) =~= spans(p) + spans_from(q, n + 1));
    }
    assert forall|k: int| 0 <= k < components(p).len() implies components(q)[k] == #[trigger] components(
        p,
    )[k] by {
        let (s, e) = spans(p)[k];
        assert(spans(q)[k] == (s, e));
        assert(q.subrange(s, e) =~= p.subrange(s, e));
    }
    if name.len() == 0 || name == seq![DOT] {
        assert(components(q) =~= components(p));
    } else {
        assert(components(q).last() == name);
        assert(components(q) =~= components(p).push(name));
    }
}

/// Adding a name to a path adds one component and changes none.
pub proof fn law_joined_adds_a_component(p: Seq<u8>, name: Seq<u8>)
    requires
        p.len() > 0,
        is_plain_name(name),
    ensures
        components(joined(p, name)) == components(p).push(name),
{
    assert(!is_absolute(name)) by {
        if is_absolute(name) {
            assert(name.contains(name[0]));
        }
    }
    if p.last() == SEP {
        let head = p.drop_last();
        assert(p =~= head.push(SEP));
        assert(joined(p, name) =~= head.push(SEP) + name);
        if head.len() == 0 {
            let q = p + name;
            assert forall|k: int| 1 <= k < q.len() implies q[k] != SEP by {
                assert(q[k] == name[k - 1]);
                assert(name.contains(name[k - 1]));
            }
            lemma_last_piece(q, 1);
            lemma_last_piece(p, 1);
            assert(q.subrange(1, q.len() as int) =~= name);
            if name.len() == 1 && name[0] == DOT {
                assert(name =~= seq![DOT]);
            }
            assert(q.subrange(0, 1) =~= p.subrange(0, 1));
            assert(components(q) =~= components(p).push(name));
        } else {
            lemma_components_split(head, name);
            lemma_components_split(head, Seq::empty());
            assert(head.push(SEP) + Seq::<u8>::empty() =~= p);
        }
    } else {
        lemma_components_split(p, name);
    }
}

/// What a path is made of. A name by itself is one component, and so is the separator that a path may
/// begin with; a name behind a separator adds a component, unless it is empty or a dot.
pub proof fn law_a_path_is_made_of_names(p: Seq<u8>, name: Seq<u8>)
    requires
        forall|k: int| 0 <= k < name.len() ==> name[k] != 47,
    ensures
        components(Seq::empty()) == Seq::<Seq<u8>>::empty(),
        components(seq![47u8]) == seq![seq![47u8]],
        name.len() > 0 ==> components(name) == seq![name],
        name.len() > 0 && name != seq![46u8] ==> components(seq![47u8] + name) == seq![
            seq![47u8],
            name,
        ],
        p.len() > 0 ==> components(p + seq![47u8] + name) == (if name.len() == 0 || name == seq![
            46u8,
        ] {
            components(p)
        } else {
            components(p).push(name)
        }),
{
    let none = Seq::<u8>::empty();
    assert(components(none) =~= Seq::<Seq<u8>>::empty());
    let top = seq![47u8];
    assert(spans_from(top, 1) =~= Seq::<(int, int)>::empty());
    assert(top.subrange(0, 1) =~= top);
    assert(components(top) =~= seq![top]);
    if name.len() > 0 {
        lemma_piece_to_end(name, 0);
        assert(spans_from(name, name.len() as int + 1) =~= Seq::<(int, int)>::empty());
        assert(spans(name) =~= seq![(0int, name.len() as int)]);
        assert(name.subrange(0, name.len() as int) =~= name);
        assert(components(name) =~= seq![name]);
    }
    let q = top + name;
    assert forall|k: int| 1 <= k < q.len() implies q[k] != SEP by {
        assert(q[k] == name[k - 1]);
    }
    if name.len() > 0 && name != seq![46u8] {
        lemma_last_piece(q, 1);
        assert(q.subrange(1, q.len() as int) =~= name);
        assert(q.subrange(0, 1) =~= top);
        if name.len() == 1 && name[0] == DOT {
            assert(name =~= seq![46u8]);
        }
        assert(spans(q) =~= seq![(0int, 1int), (1int, q.len() as int)]);
        assert(components(q) =~= seq![top, name]);
    }
    if p.len() > 0 {
        assert(!name.contains(SEP));
        lemma_components_split(p, name);
        assert(p + seq![47u8] + name =~= p.push(SEP) + name);
    }
}

proof fn lemma_cut(p: Seq<u8>, e: int, i: int)
    requires
        0 <= i,
        spans_from(p, i).len() > 0,
        e == spans_from(p, i).last().1,
    ensures
        i < e <= p.len(),
        spans_from(p.take(e), i) == spans_from(p, i),
    decreases p.len() + 1 - i,
{
    lemma_spans_from(p, i);
    let x = piece_end(p, i);
    lemma_piece_end(p, i);
    let rest = spans_from(p, x + 1);
    let q = p.take(e);
    if rest.len() > 0 {
        assert(rest.last() == spans_from(p, i).last());
        lemma_cut(p, e, x + 1);
        lemma_piece_shorter(p, e, i);
        assert(spans_from(q, i) =~= spans_from(p, i));
    } else {
        assert(e == x);
        lemma_piece_shorter(p, e, i);
        assert(spans_from(q, x + 1) =~= Seq::<(int, int)>::empty());
        assert(spans_from(q, i) =~= spans_from(p, i));
    }
}

proof fn lemma_piece_shorter(p: Seq<u8>, e: int, i: int)
    requires
        0 <= i <= piece_end(p, i) <= e <= p.len(),
    ensures
        piece_end(p.take(e), i) == piece_end(p, i),
    decreases p.len() - i,
{
    if i < p.len() && p[i] != SEP {
        lemma_piece_end(p, i + 1);
        lemma_piece_shorter(p, e, i + 1);
    }
}

/// Whatever lies in a directory has it for a parent, and has its own name. Neither the top nor a path
/// that leads nowhere has either.
pub proof fn law_a_parent_is_what_a_name_lies_in(p: Seq<u8>, name: Seq<u8>)
    requires
        name.len() > 0,
        forall|k: int| 0 <= k < name.len() ==> name[k] != 47,
        name != seq![46u8],
    ensures
        parent_of(Seq::empty()) is None,
        parent_of(seq![47u8]) is None,
        parent_of(name) == Some(Seq::<u8>::empty()),
        p.len() > 0 ==> {
            &&& parent_of(p + seq![47u8] + name) matches Some(dir)
            &&& components(dir) == components(p)
            &&& dir == (p + seq![47u8] + name).take(dir.len() as int)
            &&& dir.len() <= p.len()
        },
        file_name_of(Seq::empty()) is None,
        file_name_of(seq![47u8]) is None,
        p.len() > 0 && name != seq![46u8, 46u8] ==> file_name_of(p + seq![47u8] + name) == Some(
            name,
        ),
        p.len() > 0 && name == seq![46u8, 46u8] ==> file_name_of(p + seq![47u8] + name) is None,
{
    law_a_path_is_made_of_names(p, name);
    assert(name[0] != 47);
    lemma_piece_to_end(name, 0);
    assert(spans_from(name, name.len() as int + 1) =~= Seq::<(int, int)>::empty());
    assert(spans(name) =~= seq![(0int, name.len() as int)]);
    if name.len() == 2 && name[0] == DOT && name[1] == DOT {
        assert(name =~= seq![46u8, 46u8]);
    }
    if name.len() == 1 && name[0] == DOT {
        assert(name =~= seq![46u8]);
    }
    if p.len() > 0 {
        let q = p + seq![47u8] + name;
        let n = p.len() as int;
        assert(q =~= p.push(SEP) + name);
        assert forall|k: int| n + 1 <= k < q.len() implies q[k] != SEP by {
            assert(q[k] == name[k - n - 1]);
        }
        lemma_last_piece(q, n + 1);
        lemma_spans(p);
        lemma_spans(q);
        let from: int = if p[0] == SEP {
            1
        } else {
            0
        };
        lemma_spans_split(p, q, from);
        assert(spans(q) =~= spans(p).push((n + 1, q.len() as int)));
        let s = spans(p);
        if s.len() == 0 {
            // Then the path would be made of nothing but separators and dots, and begin with none.
            lemma_piece_end(p, 0);
            assert(is_component(p, 0, piece_end(p, 0)));
            assert(false);
        }
        let e = s.last().1;
        let dir = q.subrange(0, e);
        assert(dir =~= p.take(e));
        assert(dir =~= q.take(e));
        if spans_from(p, from).len() > 0 {
            assert(spans_from(p, from).last() == s.last());
            lemma_cut(p, e, from);
            assert(dir[0] == p[0]);
            assert(spans(dir) =~= s);
        } else {
            assert(s =~= seq![(0int, 1int)]);
            assert(e == 1);
            assert(dir =~= seq![SEP]);
            assert(spans_from(dir, 1) =~= Seq::<(int, int)>::empty());
            assert(spans(dir) =~= s);
        }
        assert forall|k: int| 0 <= k < s.len() implies components(dir)[k] == #[trigger] components(
            p,
        )[k] by {
            assert(s[k].1 <= e) by {
                lemma_ends_grow(p, from);
                if k < s.len() - 1 {
                    if from == 1 && k > 0 {
                        assert(s[k] == spans_from(p, 1)[k - 1]);
                    } else if from == 0 {
                        assert(s[k] == spans_from(p, 0)[k]);
                    }
                }
            }
            assert(dir.subrange(s[k].0, s[k].1) =~= p.subrange(s[k].0, s[k].1));
        }
        assert(components(dir) =~= components(p));
    }
}

proof fn lemma_ends_grow(p: Seq<u8>, i: int)
    requires
        0 <= i,
    ensures
        forall|j: int, k: int|
            0 <= j <= k < spans_from(p, i).len() ==> (#[trigger] spans_from(p, i)[j]).1 <= (
            #[trigger] spans_from(p, i)[k]).1,
    decreases p.len() + 1 - i,
{
    if i < p.len() {
        lemma_piece_end(p, i);
        let e = piece_end(p, i);
        lemma_ends_grow(p, e + 1);
        lemma_spans_from(p, e + 1);
        let rest = spans_from(p, e + 1);
        let all = spans_from(p, i);
        assert forall|j: int, k: int| 0 <= j <= k < all.len() implies (#[trigger] all[j]).1 <= (
        #[trigger] all[k]).1 by {
            if is_component(p, i, e) {
                if j > 0 {
                    assert(all[j] == rest[j - 1] && all[k] == rest[k - 1]);
                } else if k > 0 {
                    assert(all[k] == rest[k - 1]);
                }
            } else {
                assert(all[j] == rest[j] && all[k] == rest[k]);
            }
        }
    }
}

/// One path leads into another where it has its components first, and to the same place where it has
/// the same ones.
pub proof fn law_paths_are_compared_by_components(a: Seq<u8>, b: Seq<u8>)
    ensures
        same_path(a, b) == (components(a) == components(b)),
        starts_with(a, b) == (components(b).len() <= components(a).len() && forall|k: int|
            0 <= k < components(b).len() ==> components(a)[k] == #[trigger] components(b)[k]),
        inside(a, b) == (components(b).len() < components(a).len() && forall|k: int|
            0 <= k < components(b).len() ==> components(a)[k] == #[trigger] components(b)[k]),
        is_absolute(a) == (a.len() > 0 && a[0] == 47),
{
    let (x, y) = (components(a), components(b));
    if x.len() == y.len() && starts_with(a, b) {
        assert(x =~= y);
    }
    if y.len() <= x.len() && forall|k: int| 0 <= k < y.len() ==> x[k] == #[trigger] y[k] {
        assert(y.is_prefix_of(x)) by {
            assert(y =~= x.subrange(0, y.len() as int));
        }
    }
    if starts_with(a, b) {
        assert forall|k: int| 0 <= k < y.len() implies x[k] == #[trigger] y[k] by {
            assert(x.subrange(0, y.len() as int)[k] == y[k]);
        }
    }
}

/// A path is put behind another with one separator between them, unless it leads from the top by
/// itself.
pub proof fn law_how_paths_are_joined(p: Seq<u8>, name: Seq<u8>)
    ensures
        name.len() > 0 && name[0] == 47 ==> joined(p, name) == name,
        p.len() == 0 ==> joined(p, name) == name,
        !(name.len() > 0 && name[0] == 47) && p.len() > 0 ==> joined(p, name) == (if p[p.len() - 1]
            == 47 {
            p + name
        } else {
            p + seq![47u8] + name
        }),
{
    if p.len() == 0 {
        assert(p + name =~= name);
    } else if p.last() != SEP {
        assert(p.push(SEP) + name =~= p + seq![47u8] + name);
    }
}

} // verus!
