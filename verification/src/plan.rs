//! Plans: the staged set of changes, and everything that decides whether they are safe to run.
//!
//! A plan is a document, not an action. Building one touches nothing; only the executor does, and
//! it re-checks every identity immediately before acting, so a path swapped underneath aborts that
//! operation instead of destroying whatever now occupies it.

pub mod path_repr;
pub mod refused;
pub mod saved;
pub mod sound;
pub mod store;
pub mod validate;

use vstd::prelude::*;

use crate::format::{
    civil_from_days, date_of, floor_div, lemma_date_of, lemma_year_bound, year_string, year_text,
};
use crate::model::Kind;
use crate::path::{components, inside, is_inside};
use crate::stat::Stat;
use crate::text::{cat2, decimal_padded, show, shown};

verus! {

/// Bumped when the on-disk format changes incompatibly. A plan from the future is refused rather
/// than half-understood.
pub const PLAN_VERSION: u32 = 1;

#[derive(Clone, Copy, Debug, PartialEq, Eq, Structural)]
pub enum EntryKind {
    Dir,
    File,
    Symlink,
    Other,
}

pub open spec fn entry_kind(k: Kind) -> EntryKind {
    match k {
        Kind::Dir => EntryKind::Dir,
        Kind::File => EntryKind::File,
        Kind::Symlink => EntryKind::Symlink,
        Kind::Other => EntryKind::Other,
    }
}

impl From<Kind> for EntryKind {
    fn from(k: Kind) -> (r: Self) {
        match k {
            Kind::Dir => EntryKind::Dir,
            Kind::File => EntryKind::File,
            Kind::Symlink => EntryKind::Symlink,
            Kind::Other => EntryKind::Other,
        }
    }
}

impl vstd::std_specs::convert::FromSpecImpl<Kind> for EntryKind {
    open spec fn obeys_from_spec() -> bool {
        true
    }

    open spec fn from_spec(k: Kind) -> Self {
        entry_kind(k)
    }
}

/// What an entry looked like when it was staged.
///
/// Re-checked before the operation runs: if any of it has changed, the path is not the thing the
/// user reviewed, and it is not touched.
#[derive(Clone, Copy, Debug, PartialEq, Eq, Structural)]
pub struct Ident {
    pub dev: u64,
    pub ino: u64,
    pub size: u64,
    pub mtime: i64,
    pub kind: EntryKind,
}

impl Ident {
    pub open spec fn spec_of(stat: Stat) -> Ident {
        Ident {
            dev: stat.dev,
            ino: stat.ino,
            size: stat.spec_size(),
            mtime: stat.mtime,
            kind: entry_kind(stat.spec_kind()),
        }
    }

    /// The identity of an entry, from a stat that did not follow a final symlink.
    pub fn of(stat: &Stat) -> (r: Ident)
        ensures
            r == Ident::spec_of(*stat),
    {
        Ident {
            dev: stat.dev,
            ino: stat.ino,
            size: stat.byte_size(),
            mtime: stat.mtime,
            kind: EntryKind::from(stat.kind()),
        }
    }
}

/// What to do if a move's destination already exists by the time it runs.
#[derive(Clone, Copy, Debug, PartialEq, Eq, Structural)]
pub enum Conflict {
    /// Refuse the operation. The only safe default: the alternative silently destroys data.
    Fail,
    /// Leave the source in place and mark the operation done.
    Skip,
}

impl Default for Conflict {
    fn default() -> (r: Self)
        ensures
            r == Conflict::Fail,
    {
        Conflict::Fail
    }
}

/// One staged change.
#[derive(Clone, Debug, PartialEq, Eq)]
pub enum Op {
    Delete {
        path: Vec<u8>,
        ident: Ident,
        /// Disk bytes this is expected to reclaim, as measured during the scan.
        est_bytes: u64,
    },
    Move {
        src: Vec<u8>,
        dst: Vec<u8>,
        ident: Ident,
        est_bytes: u64,
        on_conflict: Conflict,
    },
}

impl Op {
    pub open spec fn from(&self) -> Seq<u8> {
        match self {
            Op::Delete { path, .. } => path@,
            Op::Move { src, .. } => src@,
        }
    }

    pub open spec fn to(&self) -> Option<Seq<u8>> {
        match self {
            Op::Delete { .. } => None,
            Op::Move { dst, .. } => Some(dst@),
        }
    }

    pub open spec fn staged(&self) -> Ident {
        match self {
            Op::Delete { ident, .. } => *ident,
            Op::Move { ident, .. } => *ident,
        }
    }

    pub open spec fn bytes(&self) -> u64 {
        match self {
            Op::Delete { est_bytes, .. } => *est_bytes,
            Op::Move { est_bytes, .. } => *est_bytes,
        }
    }

    /// Whether this removes a whole directory.
    pub open spec fn deletes_dir(&self) -> bool {
        self is Delete && self.staged().kind == EntryKind::Dir
    }

    pub open spec fn summary_text(&self) -> Seq<char> {
        match self {
            Op::Delete { path, .. } => "delete "@ + shown(path@),
            Op::Move { src, dst, .. } => "move   "@ + shown(src@) + " -> "@ + shown(dst@),
        }
    }

    /// The path this operation reads from or removes.
    pub fn source(&self) -> (r: &[u8])
        ensures
            r@ == self.from(),
    {
        match self {
            Op::Delete { path, .. } => path.as_slice(),
            Op::Move { src, .. } => src.as_slice(),
        }
    }

    /// The path this operation writes to, if any.
    pub fn destination(&self) -> (r: Option<&[u8]>)
        ensures
            match r {
                Some(d) => self.to() == Some(d@),
                None => self.to() is None,
            },
    {
        match self {
            Op::Delete { .. } => None,
            Op::Move { dst, .. } => Some(dst.as_slice()),
        }
    }

    pub fn ident(&self) -> (r: &Ident)
        ensures
            *r == self.staged(),
    {
        match self {
            Op::Delete { ident, .. } => ident,
            Op::Move { ident, .. } => ident,
        }
    }

    pub fn est_bytes(&self) -> (r: u64)
        ensures
            r == self.bytes(),
    {
        match self {
            Op::Delete { est_bytes, .. } => *est_bytes,
            Op::Move { est_bytes, .. } => *est_bytes,
        }
    }

    pub fn is_delete(&self) -> (r: bool)
        ensures
            r == self is Delete,
    {
        match self {
            Op::Delete { .. } => true,
            Op::Move { .. } => false,
        }
    }

    /// A one-line description for listings.
    pub fn summary(&self) -> (r: String)
        ensures
            r@ == self.summary_text(),
    {
        match self {
            Op::Delete { path, .. } => {
                let p = show(path.as_slice());
                cat2("delete ", p.as_str())
            },
            Op::Move { src, dst, .. } => {
                let s = show(src.as_slice());
                let d = show(dst.as_slice());
                let mut out = cat2("move   ", s.as_str());
                out.append(" -> ");
                out.append(d.as_str());
                out
            },
        }
    }
}

/// A reviewable set of changes against one scanned tree.
#[derive(Clone, Debug, PartialEq, Eq)]
pub struct Plan {
    pub version: u32,
    pub id: String,
    /// Unix seconds.
    pub created: i64,
    /// Host the paths belong to. A plan is refused elsewhere, because an inode number means
    /// nothing on another machine.
    pub host: String,
    pub root: Vec<u8>,
    pub ops: Vec<Op>,
}

/// What the operations that pass `del` expect to free.
pub open spec fn bytes_of(ops: Seq<Op>, del: bool) -> nat
    decreases ops.len(),
{
    if ops.len() == 0 {
        0
    } else if (ops.last() is Delete) == del {
        bytes_of(ops.drop_last(), del) + ops.last().bytes() as nat
    } else {
        bytes_of(ops.drop_last(), del)
    }
}

/// Whether an operation happens anyway, because it acts inside a directory that is deleted.
pub open spec fn is_redundant(ops: Seq<Op>, op: Op) -> bool {
    exists|j: int|
        0 <= j < ops.len() && (#[trigger] ops[j]).deletes_dir() && inside(op.from(), ops[j].from())
}

/// The operations that are not redundant, in order.
pub open spec fn normalized(ops: Seq<Op>) -> Seq<Op> {
    ops.filter(|op: Op| !is_redundant(ops, op))
}

proof fn lemma_bytes_monotone(ops: Seq<Op>, n: int, del: bool)
    requires
        0 <= n <= ops.len(),
    ensures
        bytes_of(ops.take(n), del) <= bytes_of(ops, del),
    decreases ops.len(),
{
    if n < ops.len() {
        assert(ops.drop_last().take(n) =~= ops.take(n));
        lemma_bytes_monotone(ops.drop_last(), n, del);
    } else {
        assert(ops.take(n) =~= ops);
    }
}

impl Plan {
    /// A plan against this machine's own filesystem.
    pub fn new(root: Vec<u8>) -> (r: Plan)
        ensures
            r.version == PLAN_VERSION,
            r.root@ == root@,
            r.ops@.len() == 0,
            is_id(r.id@),
    {
        Plan::for_host(root, hostname())
    }

    /// A plan against `host`'s filesystem.
    ///
    /// The host is not a label: validation refuses a plan whose host is not the machine running
    /// it, because an inode number means nothing elsewhere and a path that happens to exist on
    /// both would otherwise be acted on here. Anything staged against a tree fetched from
    /// somewhere else must record where that tree came from.
    pub fn for_host(root: Vec<u8>, host: String) -> (r: Plan)
        ensures
            r.version == PLAN_VERSION,
            r.root@ == root@,
            r.host@ == host@,
            r.ops@.len() == 0,
            is_id(r.id@),
    {
        Plan {
            version: PLAN_VERSION,
            id: new_id(),
            created: now_secs(),
            host,
            root,
            ops: Vec::new(),
        }
    }

    /// Whether what the plan is about to reclaim, and to move, can be added up.
    pub fn can_total(&self) -> (r: bool)
        ensures
            r == (bytes_of(self.ops@, true) <= u64::MAX && bytes_of(self.ops@, false) <= u64::MAX),
    {
        can_sum(&self.ops, true) && can_sum(&self.ops, false)
    }

    /// Bytes the plan expects its deletions to free.
    pub fn delete_bytes(&self) -> (r: u64)
        requires
            bytes_of(self.ops@, true) <= u64::MAX,
        ensures
            r == bytes_of(self.ops@, true),
    {
        sum_bytes(&self.ops, true)
    }

    pub fn move_bytes(&self) -> (r: u64)
        requires
            bytes_of(self.ops@, false) <= u64::MAX,
        ensures
            r == bytes_of(self.ops@, false),
    {
        sum_bytes(&self.ops, false)
    }

    /// Drop operations made redundant by another: a delete inside a deleted directory happens
    /// anyway, and staging both is a normal consequence of marking a tree and then a file in it.
    ///
    /// Returns the number removed.
    pub fn normalize(&mut self) -> (r: usize)
        ensures
            final(self).ops@ == normalized(old(self).ops@),
            r == old(self).ops@.len() - final(self).ops@.len(),
            final(self).version == old(self).version,
            final(self).id == old(self).id,
            final(self).created == old(self).created,
            final(self).host == old(self).host,
            final(self).root == old(self).root,
    {
        let ghost all = self.ops@;
        let ghost keep = |op: Op| !is_redundant(all, op);
        let before: usize = self.ops.len();
        let drop = redundant(&self.ops);
        let mut ops: Vec<Op> = Vec::new();
        std::mem::swap(&mut ops, &mut self.ops);
        let mut kept: Vec<Op> = Vec::new();
        let mut n: usize = before;
        proof {
            assert(all.skip(n as int).filter(keep) =~= Seq::<Op>::empty());
        }
        while n > 0
            invariant
                n <= all.len(),
                ops@ == all.take(n as int),
                drop@.len() == all.len(),
                forall|i: int| 0 <= i < all.len() ==> #[trigger] drop@[i] == is_redundant(all, all[i]),
                keep == (|op: Op| !is_redundant(all, op)),
                kept@ == all.skip(n as int).filter(keep).reverse(),
                self.ops@ == Seq::<Op>::empty(),
                self.version == old(self).version,
                self.id == old(self).id,
                self.created == old(self).created,
                self.host == old(self).host,
                self.root == old(self).root,
            decreases n,
        {
            let ghost tail = all.skip(n as int);
            n -= 1;
            proof {
                let whole = all.skip(n as int);
                assert(whole =~= seq![all[n as int]] + tail);
                lemma_filter_front(all[n as int], tail, keep);
                assert(whole.filter(keep) == (if keep(all[n as int]) {
                    seq![all[n as int]] + tail.filter(keep)
                } else {
                    tail.filter(keep)
                }));
            }
            match ops.pop() {
                Some(op) => {
                    if !drop[n] {
                        kept.push(op);
                        proof {
                            assert(kept@ =~= all.skip(n as int).filter(keep).reverse());
                        }
                    }
                },
                None => {},
            }
            proof {
                assert(ops@ =~= all.take(n as int));
            }
        }
        proof {
            assert(all.skip(0) =~= all);
        }
        let ghost result = all.filter(keep);
        let count: usize = kept.len();
        proof {
            assert(kept@.len() == result.len());
            lemma_filter_len(all, keep);
        }
        while kept.len() > 0
            invariant
                kept@ == result.skip(self.ops@.len() as int).reverse(),
                self.ops@ == result.take(self.ops@.len() as int),
                self.ops@.len() <= result.len(),
                self.version == old(self).version,
                self.id == old(self).id,
                self.created == old(self).created,
                self.host == old(self).host,
                self.root == old(self).root,
            decreases kept.len(),
        {
            let ghost k = self.ops@.len() as int;
            proof {
                assert(kept@.last() == result[k]);
            }
            match kept.pop() {
                Some(op) => {
                    self.ops.push(op);
                },
                None => {},
            }
            proof {
                assert(self.ops@ =~= result.take(k + 1));
                assert(kept@ =~= result.skip(k + 1).reverse());
            }
        }
        proof {
            assert(self.ops@ =~= result);
        }
        before - count
    }
}

proof fn lemma_filter_front(x: Op, tail: Seq<Op>, keep: spec_fn(Op) -> bool)
    ensures
        (seq![x] + tail).filter(keep) == (if keep(x) {
            seq![x] + tail.filter(keep)
        } else {
            tail.filter(keep)
        }),
    decreases tail.len(),
{
    reveal(Seq::filter);
    let all = seq![x] + tail;
    if tail.len() == 0 {
        assert(all.drop_last() =~= Seq::<Op>::empty());
        assert(all.drop_last().filter(keep) =~= Seq::<Op>::empty());
        assert(tail.filter(keep) =~= Seq::<Op>::empty());
        assert(all.last() == x);
        assert(all.filter(keep) =~= (if keep(x) {
            seq![x] + tail.filter(keep)
        } else {
            tail.filter(keep)
        }));
    } else {
        assert(all.drop_last() =~= seq![x] + tail.drop_last());
        lemma_filter_front(x, tail.drop_last(), keep);
        assert(all.last() == tail.last());
        assert(all.filter(keep) =~= (if keep(x) {
            seq![x] + tail.filter(keep)
        } else {
            tail.filter(keep)
        }));
    }
}

proof fn lemma_filter_len(s: Seq<Op>, keep: spec_fn(Op) -> bool)
    ensures
        s.filter(keep).len() <= s.len(),
    decreases s.len(),
{
    reveal(Seq::filter);
    if s.len() > 0 {
        lemma_filter_len(s.drop_last(), keep);
    }
}

/// Which operations act inside a directory that another one deletes.
fn redundant(ops: &Vec<Op>) -> (r: Vec<bool>)
    ensures
        r@.len() == ops@.len(),
        forall|i: int| 0 <= i < ops@.len() ==> #[trigger] r@[i] == is_redundant(ops@, ops@[i]),
{
    let mut out: Vec<bool> = Vec::new();
    while out.len() < ops.len()
        invariant
            out@.len() <= ops@.len(),
            forall|i: int|
                0 <= i < out@.len() ==> #[trigger] out@[i] == is_redundant(ops@, ops@[i]),
        decreases ops.len() - out.len(),
    {
        let i: usize = out.len();
        let mut found = false;
        let mut j: usize = 0;
        while j < ops.len()
            invariant
                i < ops@.len(),
                j <= ops@.len(),
                found ==> is_redundant(ops@, ops@[i as int]),
                !found ==> forall|k: int|
                    0 <= k < j ==> !((#[trigger] ops@[k]).deletes_dir() && inside(
                        ops@[i as int].from(),
                        ops@[k].from(),
                    )),
            decreases ops.len() - j,
        {
            if ops[j].is_delete() && ops[j].ident().kind == EntryKind::Dir && is_inside(
                ops[i].source(),
                ops[j].source(),
            ) {
                proof {
                    assert(ops@[j as int].deletes_dir());
                }
                found = true;
            }
            j += 1;
        }
        out.push(found);
    }
    out
}

fn can_sum(ops: &Vec<Op>, del: bool) -> (r: bool)
    ensures
        r == (bytes_of(ops@, del) <= u64::MAX),
{
    let mut total: u64 = 0;
    let mut i: usize = 0;
    proof {
        assert(ops@.take(0) =~= Seq::<Op>::empty());
    }
    while i < ops.len()
        invariant
            i <= ops@.len(),
            total == bytes_of(ops@.take(i as int), del),
        decreases ops.len() - i,
    {
        proof {
            assert(ops@.take(i + 1).drop_last() =~= ops@.take(i as int));
            lemma_bytes_monotone(ops@, i + 1, del);
        }
        if ops[i].is_delete() == del {
            let more: u64 = ops[i].est_bytes();
            if more > u64::MAX - total {
                return false;
            }
            total = total + more;
        }
        i += 1;
    }
    proof {
        assert(ops@.take(i as int) =~= ops@);
    }
    true
}

fn sum_bytes(ops: &Vec<Op>, del: bool) -> (r: u64)
    requires
        bytes_of(ops@, del) <= u64::MAX,
    ensures
        r == bytes_of(ops@, del),
{
    let mut total: u64 = 0;
    let mut i: usize = 0;
    proof {
        assert(ops@.take(0) =~= Seq::<Op>::empty());
    }
    while i < ops.len()
        invariant
            i <= ops@.len(),
            total == bytes_of(ops@.take(i as int), del),
            bytes_of(ops@, del) <= u64::MAX,
        decreases ops.len() - i,
    {
        proof {
            assert(ops@.take(i + 1).drop_last() =~= ops@.take(i as int));
            lemma_bytes_monotone(ops@, i + 1, del);
        }
        if ops[i].is_delete() == del {
            total = total + ops[i].est_bytes();
        }
        i += 1;
    }
    proof {
        assert(ops@.take(i as int) =~= ops@);
    }
    total
}

proof fn lemma_inside_transitive(a: Seq<u8>, b: Seq<u8>, c: Seq<u8>)
    requires
        inside(a, b),
        inside(b, c),
    ensures
        inside(a, c),
        components(c).len() < components(b).len() < components(a).len(),
{
    let (x, y, z) = (components(a), components(b), components(c));
    assert(y == x.take(y.len() as int));
    assert(z == y.take(z.len() as int));
    assert(z =~= x.take(z.len() as int));
    if y.len() == x.len() {
        assert(y =~= x);
    }
    if z.len() == y.len() {
        assert(z =~= y);
    }
}

proof fn lemma_in_filter(s: Seq<Op>, keep: spec_fn(Op) -> bool, i: int)
    requires
        0 <= i < s.len(),
        keep(s[i]),
    ensures
        s.filter(keep).contains(s[i]),
    decreases s.len(),
{
    reveal(Seq::filter);
    if i == s.len() - 1 {
        assert(s.filter(keep).last() == s[i]);
    } else {
        lemma_in_filter(s.drop_last(), keep, i);
        let sub = s.drop_last().filter(keep);
        let k = choose|k: int| 0 <= k < sub.len() && sub[k] == s[i];
        assert(s.filter(keep)[k] == s[i]);
    }
}

proof fn lemma_from_filter(s: Seq<Op>, keep: spec_fn(Op) -> bool, i: int)
    requires
        0 <= i < s.filter(keep).len(),
    ensures
        keep(s.filter(keep)[i]),
        s.contains(s.filter(keep)[i]),
    decreases s.len(),
{
    reveal(Seq::filter);
    if s.len() > 0 {
        let sub = s.drop_last().filter(keep);
        if i < sub.len() {
            lemma_from_filter(s.drop_last(), keep, i);
            let k = choose|k: int| 0 <= k < s.drop_last().len() && s.drop_last()[k] == sub[i];
            assert(s[k] == sub[i]);
        } else {
            assert(s.filter(keep)[i] == s.last());
        }
    }
}

/// Nothing is dropped that would not happen anyway: every operation that goes acts inside a
/// directory whose deletion stays.
pub proof fn law_normalize_covers(ops: Seq<Op>, i: int)
    requires
        0 <= i < ops.len(),
        is_redundant(ops, ops[i]),
    ensures
        is_redundant(normalized(ops), ops[i]),
    decreases components(ops[i].from()).len(),
{
    let keep = |op: Op| !is_redundant(ops, op);
    let j = choose|j: int|
        0 <= j < ops.len() && (#[trigger] ops[j]).deletes_dir() && inside(
            ops[i].from(),
            ops[j].from(),
        );
    if is_redundant(ops, ops[j]) {
        let (x, y) = (components(ops[i].from()), components(ops[j].from()));
        assert(y.len() < x.len()) by {
            if y.len() == x.len() {
                assert(y =~= x);
            }
        }
        law_normalize_covers(ops, j);
        let out = normalized(ops);
        let k = choose|k: int|
            0 <= k < out.len() && (#[trigger] out[k]).deletes_dir() && inside(
                ops[j].from(),
                out[k].from(),
            );
        lemma_inside_transitive(ops[i].from(), ops[j].from(), out[k].from());
    } else {
        lemma_in_filter(ops, keep, j);
        let out = normalized(ops);
        let k = choose|k: int| 0 <= k < out.len() && out[k] == ops[j];
        assert(out[k].deletes_dir() && inside(ops[i].from(), out[k].from()));
    }
}

/// A plan that has been normalized holds nothing redundant.
pub proof fn law_normalized_is_minimal(ops: Seq<Op>, i: int)
    requires
        0 <= i < normalized(ops).len(),
    ensures
        !is_redundant(normalized(ops), normalized(ops)[i]),
{
    let keep = |op: Op| !is_redundant(ops, op);
    let out = normalized(ops);
    lemma_from_filter(ops, keep, i);
    if is_redundant(out, out[i]) {
        let j = choose|j: int|
            0 <= j < out.len() && (#[trigger] out[j]).deletes_dir() && inside(
                out[i].from(),
                out[j].from(),
            );
        lemma_from_filter(ops, keep, j);
        let k = choose|k: int| 0 <= k < ops.len() && ops[k] == out[j];
        assert(ops[k].deletes_dir() && inside(out[i].from(), ops[k].from()));
        assert(is_redundant(ops, out[i]));
    }
}

/// Normalizing twice is the same as normalizing once.
pub proof fn law_normalize_twice(ops: Seq<Op>)
    ensures
        normalized(normalized(ops)) == normalized(ops),
{
    let out = normalized(ops);
    let keep = |op: Op| !is_redundant(out, op);
    assert forall|i: int| 0 <= i < out.len() implies keep(out[i]) by {
        law_normalized_is_minimal(ops, i);
    }
    lemma_filter_all(out, keep);
}

proof fn lemma_filter_all(s: Seq<Op>, keep: spec_fn(Op) -> bool)
    requires
        forall|i: int| 0 <= i < s.len() ==> keep(#[trigger] s[i]),
    ensures
        s.filter(keep) == s,
    decreases s.len(),
{
    reveal(Seq::filter);
    if s.len() > 0 {
        lemma_filter_all(s.drop_last(), keep);
        assert(s.drop_last().push(s.last()) =~= s);
    } else {
        assert(s.filter(keep) =~= s);
    }
}

/// Seconds since the epoch. What the clock says is not known beforehand, so nothing is claimed of
/// the result of `SystemTime::now`.
#[verifier::external_body]
fn now_secs() -> (r: i64) {
    std::time::SystemTime::now()
        .duration_since(std::time::UNIX_EPOCH)
        .map(|d| d.as_secs() as i64)
        .unwrap_or(0)
}

/// This machine's name, as `rustix::system::uname` gives it. Nothing is claimed of it.
#[verifier::external_body]
fn hostname() -> (r: String) {
    rustix::system::uname().nodename().to_string_lossy().into_owned()
}

/// A number that differs from call to call: `RandomState::new` is seeded anew by the system, and
/// `hash_one` mixes the seed with `secs`. Nothing is claimed of it.
#[verifier::external_body]
fn salt(secs: i64) -> (r: u32) {
    std::hash::BuildHasher::hash_one(&std::hash::RandomState::new(), secs) as u32
}

/// A hexadecimal digit.
pub open spec fn hex_digit(d: nat) -> char {
    if d < 10 {
        (48 + d) as char
    } else {
        (87 + d) as char
    }
}

/// The low `width` hexadecimal digits of `n`.
pub open spec fn hex_text(n: nat, width: nat) -> Seq<char>
    decreases width,
{
    if width == 0 {
        Seq::empty()
    } else {
        hex_text(n / 16, (width - 1) as nat).push(hex_digit(n % 16))
    }
}

pub open spec fn two_digits(n: int) -> Seq<char> {
    crate::format::two(n)
}

/// The identifier of a plan made at `secs`: `20260803T201530-3f2a9c1e`.
pub open spec fn id_text(secs: int, salt: nat) -> Seq<char> {
    let date = date_of(secs / 86_400);
    let rem = secs % 86_400;
    year_text(date.0) + two_digits(date.1) + two_digits(date.2) + "T"@ + two_digits(rem / 3600)
        + two_digits((rem % 3600) / 60) + two_digits(rem % 60) + "-"@ + hex_text(salt, 8)
}

/// Whether `id` names a plan made at some time.
pub open spec fn is_id(id: Seq<char>) -> bool {
    exists|secs: i64, salt: u32| id == #[trigger] id_text(secs as int, salt as nat)
}

fn hex_char(d: u32) -> (r: char)
    requires
        d < 16,
    ensures
        r == hex_digit(d as nat),
{
    let b: u8 = if d < 10 {
        48 + d as u8
    } else {
        87 + d as u8
    };
    b as char
}

fn hex_string(n: u32, width: usize) -> (r: String)
    ensures
        r@ == hex_text(n as nat, width as nat),
    decreases width,
{
    if width == 0 {
        String::new()
    } else {
        let mut s = hex_string(n / 16, width - 1);
        s.push(hex_char(n % 16));
        s
    }
}

/// Year, month, day, hour, minute and second of a Unix timestamp, in UTC.
pub fn civil(secs: i64) -> (r: (i64, u32, u32, u32, u32, u32))
    ensures
        (r.0 as int, r.1 as int, r.2 as int) == date_of(secs as int / 86_400),
        r.3 == (secs as int % 86_400) / 3600,
        r.4 == (secs as int % 86_400) % 3600 / 60,
        r.5 == (secs as int % 86_400) % 60,
        r.0 > i64::MIN,
{
    let (days, rem) = floor_div(secs, 86_400);
    let (year, month, day) = civil_from_days(days);
    proof {
        lemma_date_of(days as int, year as int, month as int, day as int);
        lemma_year_bound(days as int, year as int, month as int, day as int);
    }
    (year, month, day, (rem / 3600) as u32, ((rem % 3600) / 60) as u32, (rem % 60) as u32)
}

/// The identifier for a plan made at `secs`, kept apart from others of that second by `salt`.
pub fn id_for(secs: i64, salt: u32) -> (r: String)
    ensures
        r@ == id_text(secs as int, salt as nat),
{
    let (y, mo, d, h, mi, s) = civil(secs);
    let mut out = year_string(y);
    let mo = decimal_padded(mo as u64, 2);
    out.append(mo.as_str());
    let d = decimal_padded(d as u64, 2);
    out.append(d.as_str());
    out.append("T");
    let h = decimal_padded(h as u64, 2);
    out.append(h.as_str());
    let mi = decimal_padded(mi as u64, 2);
    out.append(mi.as_str());
    let s = decimal_padded(s as u64, 2);
    out.append(s.as_str());
    out.append("-");
    let tail = hex_string(salt, 8);
    out.append(tail.as_str());
    out
}

/// A sortable, human-readable identifier.
///
/// Sortable so a list of plans is chronological without parsing, and readable so it can be typed.
pub fn new_id() -> (r: String)
    ensures
        is_id(r@),
{
    let secs: i64 = now_secs();
    let salt: u32 = salt(secs);
    id_for(secs, salt)
}

/// An entry is known again by where it lies, how long it is, when it was written and what it is.
pub proof fn law_an_entry_is_known_by_what_it_is(stat: Stat)
    ensures
        Ident::spec_of(stat).dev == stat.dev,
        Ident::spec_of(stat).ino == stat.ino,
        Ident::spec_of(stat).mtime == stat.mtime,
        stat.size >= 0 ==> Ident::spec_of(stat).size == stat.size,
        stat.size < 0 ==> Ident::spec_of(stat).size == 0,
        (Ident::spec_of(stat).kind == EntryKind::Dir) == (stat.mode & 0xf000 == 0x4000),
        (Ident::spec_of(stat).kind == EntryKind::File) == (stat.mode & 0xf000 == 0x8000),
        (Ident::spec_of(stat).kind == EntryKind::Symlink) == (stat.mode & 0xf000 == 0xa000),
{
    crate::stat::law_what_a_stat_says(stat);
}

/// What a plan deletes, or moves, is what its operations do together: each adds what it is estimated
/// at to the one side, and nothing to the other.
pub proof fn law_estimates_add_up(a: Seq<Op>, b: Seq<Op>, op: Op)
    ensures
        bytes_of(a + b, true) == bytes_of(a, true) + bytes_of(b, true),
        bytes_of(a + b, false) == bytes_of(a, false) + bytes_of(b, false),
        op matches Op::Delete { est_bytes, .. } ==> bytes_of(seq![op], true) == est_bytes && bytes_of(
            seq![op],
            false,
        ) == 0,
        op matches Op::Move { est_bytes, .. } ==> bytes_of(seq![op], false) == est_bytes && bytes_of(
            seq![op],
            true,
        ) == 0,
    decreases b.len(),
{
    assert(seq![op].drop_last() =~= Seq::<Op>::empty());
    assert(bytes_of(Seq::<Op>::empty(), true) == 0 && bytes_of(Seq::<Op>::empty(), false) == 0);
    if b.len() == 0 {
        assert(a + b =~= a);
    } else {
        assert((a + b).drop_last() =~= a + b.drop_last());
        law_estimates_add_up(a, b.drop_last(), op);
    }
}

/// Whether an operation deletes a directory with the path of another somewhere in it.
pub open spec fn takes_along(op: Op, other: Op) -> bool {
    let path = match other {
        Op::Delete { path, .. } => path@,
        Op::Move { src, .. } => src@,
    };
    op matches Op::Delete { path: dir, ident, .. } && ident.kind == EntryKind::Dir
        && components(dir@).len() < components(path).len() && components(path).take(
        components(dir@).len() as int,
    ) == components(dir@)
}

/// Normalizing drops an operation exactly where the plan deletes a directory around what it takes,
/// and leaves the others as they are, in the order they were in.
pub proof fn law_what_normalizing_drops(ops: Seq<Op>, i: int)
    requires
        0 <= i < ops.len(),
    ensures
        normalized(ops).contains(ops[i]) == !exists|j: int|
            0 <= j < ops.len() && #[trigger] takes_along(ops[j], ops[i]),
        normalized(ops) == ops.filter(
            |op: Op|
                !exists|j: int|
                    0 <= j < ops.len() && #[trigger] takes_along(ops[j], op),
        ),
{
    assert forall|op: Op| #[trigger] is_redundant(ops, op) == exists|j: int|
        0 <= j < ops.len() && #[trigger] takes_along(ops[j], op) by {
        let path = match op {
            Op::Delete { path, .. } => path@,
            Op::Move { src, .. } => src@,
        };
        assert(op.from() == path);
        assert forall|j: int| 0 <= j < ops.len() implies #[trigger] takes_along(ops[j], op) == (
        ops[j].deletes_dir() && inside(path, ops[j].from())) by {
            let (c, d) = (components(path), components(ops[j].from()));
            if ops[j].deletes_dir() && inside(path, ops[j].from()) {
                assert(c.take(d.len() as int) =~= d);
                if c.len() == d.len() {
                    assert(c =~= d);
                }
            }
            if takes_along(ops[j], op) {
                assert forall|k: int| 0 <= k < d.len() implies #[trigger] c[k] == d[k] by {
                    assert(c.take(d.len() as int)[k] == d[k]);
                }
                assert(d.is_prefix_of(c));
            }
        }
        if is_redundant(ops, op) {
            let j = choose|j: int|
                0 <= j < ops.len() && (#[trigger] ops[j]).deletes_dir() && inside(
                    op.from(),
                    ops[j].from(),
                );
            assert(takes_along(ops[j], op));
        }
    }
    let keep = |op: Op| !is_redundant(ops, op);
    let raw = |op: Op|
        !exists|j: int|
            0 <= j < ops.len() && #[trigger] takes_along(ops[j], op);
    assert forall|op: Op| #[trigger] keep(op) == raw(op) by {
        assert(is_redundant(ops, op) == !raw(op));
    }
    assert(keep =~= raw);
    broadcast use vstd::seq_lib::group_filter_ensures;
    assert(keep(ops[i]) == raw(ops[i]));
    if normalized(ops).contains(ops[i]) {
        let k = choose|k: int| 0 <= k < normalized(ops).len() && normalized(ops)[k] == ops[i];
        assert(keep(normalized(ops)[k]));
    }
}

/// An operation reads as what it does, and to what.
pub proof fn law_how_an_operation_reads(op: Op)
    ensures
        op matches Op::Delete { path, .. } ==> op.summary_text() == "delete "@ + shown(path@),
        op matches Op::Move { src, dst, .. } ==> op.summary_text() == "move   "@ + shown(src@)
            + " -> "@ + shown(dst@),
{
}

} // verus!
