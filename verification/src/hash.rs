//! The hashing capability consumed by the tree: a digest state that can be
//! read out as a fixed digest, and a builder that produces fresh hasher
//! instances on demand.

use vstd::prelude::*;

use crate::digest::Digest;

verus! {

/// A digest state whose accumulated bytes can be read out as a digest of
/// any width.  The digest is a pure function of the bytes fed in,
/// determined by the hasher type alone: `digest_of` names that function.
pub trait MerkleHasher: Digest {
    /// The digest this kind of hasher produces for a given byte sequence.
    /// The default stands for implementations written outside the
    /// verifier; a verified implementation overrides it with its own
    /// digest function.
    open spec fn digest_of(bytes: Seq<u8>) -> Seq<u8> {
        Seq::empty()
    }

    /// Read the digest of everything fed so far.
    fn finish_full(&self) -> (r: Vec<u8>)
        ensures
            r@ == Self::digest_of(self.buffered()),
    ;
}

/// A builder of fresh hasher instances, analogous to `std::hash::BuildHasher`.
pub trait BuildMerkleHasher: Sized + Clone {
    type Hasher: MerkleHasher;

    /// Produce a fresh hasher with nothing fed in yet.
    fn build_hasher(&self) -> (h: Self::Hasher)
        ensures
            h.buffered() == Seq::<u8>::empty(),
    ;
}

} // verus!
