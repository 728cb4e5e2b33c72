//! The digesting capability consumed by the tree: a stateful byte sink that
//! accumulates input, and the trait a value implements to feed a
//! deterministic byte representation into such a sink.

use vstd::prelude::*;

verus! {

/// A running digest computation.  Implementations accumulate the bytes fed
/// through `input`; `buffered` is the mathematical record of those bytes.
pub trait Digest: Sized {
    /// The bytes fed since construction or since the last `reset`.  The
    /// default stands for implementations written outside the verifier,
    /// which supply only the executable methods; a verified
    /// implementation overrides it with its own record.
    open spec fn buffered(&self) -> Seq<u8> {
        Seq::empty()
    }

    /// Feed `bytes` into the digest state.
    fn input(&mut self, bytes: &[u8])
        ensures
            final(self).buffered() == old(self).buffered() + bytes@,
    ;

    /// Forget everything fed so far.
    fn reset(&mut self)
        ensures
            final(self).buffered() == Seq::<u8>::empty(),
    ;
}

/// A value that can feed a deterministic byte representation of itself into
/// a digest.  Equal values must feed identical bytes: `feed` names that
/// byte representation, and `hash` must feed exactly it.
pub trait DigestHash {
    /// The byte representation this value feeds into a digest.  The
    /// default stands for implementations written outside the verifier; a
    /// verified implementation overrides it.
    open spec fn feed(&self) -> Seq<u8> {
        Seq::empty()
    }

    /// Feed the value's byte representation into `state`.
    fn hash<D: Digest>(&self, state: &mut D)
        ensures
            final(state).buffered() == old(state).buffered() + self.feed(),
    ;
}

} // verus!
