//! Hashing the contents of files.

use vstd::prelude::*;

verus! {

/// BLAKE3's incremental hasher.
#[verifier::external_type_specification]
#[verifier::external_body]
pub struct ExHasher(blake3::Hasher);

/// The bytes a hasher has been given so far.
pub uninterp spec fn fed(h: blake3::Hasher) -> Seq<u8>;

/// The BLAKE3 hash of some bytes.
pub uninterp spec fn blake3_of(bytes: Seq<u8>) -> Seq<u8>;

/// `blake3::Hasher::new`: a hasher that has been given nothing.
#[verifier::external_body]
pub(crate) fn new_hasher() -> (r: blake3::Hasher)
    ensures
        fed(r) == Seq::<u8>::empty(),
{
    blake3::Hasher::new()
}

/// `blake3::Hasher::update`: adds input to the hash state, after what was added before.
#[verifier::external_body]
pub(crate) fn feed(h: &mut blake3::Hasher, bytes: &[u8])
    ensures
        fed(*final(h)) == fed(*old(h)) + bytes@,
{
    h.update(bytes);
}

/// `blake3::Hasher::finalize`: the hash of everything that was added, 32 bytes that depend on
/// those bytes alone, however they were split up.
#[verifier::external_body]
pub(crate) fn finish(h: &blake3::Hasher) -> (r: [u8; 32])
    ensures
        r@ == blake3_of(fed(*h)),
{
    *h.finalize().as_bytes()
}

/// A digest in the making.
pub struct Digest {
    hasher: blake3::Hasher,
}

impl Digest {
    /// What has been added so far.
    pub closed spec fn taken(&self) -> Seq<u8> {
        fed(self.hasher)
    }

    pub fn new() -> (r: Self)
        ensures
            r.taken() == Seq::<u8>::empty(),
    {
        Digest { hasher: new_hasher() }
    }

    /// Adds what was read next.
    pub fn add_bytes(&mut self, bytes: &[u8])
        ensures
            final(self).taken() == old(self).taken() + bytes@,
    {
        feed(&mut self.hasher, bytes);
    }

    /// The digest of everything added.
    pub fn value(&self) -> (r: [u8; 32])
        ensures
            r@ == blake3_of(self.taken()),
    {
        finish(&self.hasher)
    }
}

/// Whether two digests are the same.
pub fn same_digest(a: &[u8; 32], b: &[u8; 32]) -> (r: bool)
    ensures
        r == (a@ == b@),
{
    let mut i: usize = 0;
    while i < 32
        invariant
            i <= 32,
            forall|k: int| 0 <= k < i ==> a@[k] == b@[k],
        decreases 32 - i,
    {
        if a[i] != b[i] {
            return false;
        }
        i += 1;
    }
    proof {
        assert(a@ =~= b@);
    }
    true
}

} // verus!
