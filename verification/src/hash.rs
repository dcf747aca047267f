//! 32-bit FNV-1a hashing.

use vstd::prelude::*;

verus! {

/// The FNV-1a offset basis: the state of a hasher that has seen no bytes.
pub const FNV_OFFSET_BASIS: u32 = 0x811c9dc5;

/// The FNV prime for 32-bit states.
pub const FNV_PRIME: u32 = 0x01000193;

/// One FNV-1a round: fold `byte` into `state` by XOR, then multiply by the
/// prime modulo 2^32.
pub open spec fn fnv1a_step(state: u32, byte: u8) -> u32 {
    (((state ^ (byte as u32)) as int * (FNV_PRIME as int)) % 0x1_0000_0000) as u32
}

/// The state reached from `state` after absorbing `bytes` from first to last.
pub open spec fn fnv1a_fold(state: u32, bytes: Seq<u8>) -> u32
    decreases bytes.len(),
{
    if bytes.len() == 0 {
        state
    } else {
        fnv1a_step(fnv1a_fold(state, bytes.drop_last()), bytes.last())
    }
}

/// The FNV-1a hash of `bytes`, widened to 64 bits.
pub open spec fn fnv1a(bytes: Seq<u8>) -> u64 {
    fnv1a_fold(FNV_OFFSET_BASIS, bytes) as u64
}

/// A streaming 32-bit FNV-1a hasher.
pub struct Fnv1aHasher {
    state: u32,
}

impl View for Fnv1aHasher {
    type V = u32;

    closed spec fn view(&self) -> u32 {
        self.state
    }
}

impl Default for Fnv1aHasher {
    /// The all-zero state. It is not the state of a fresh FNV-1a hasher:
    /// use [`Fnv1aHasher::new`] for that.
    fn default() -> (h: Self)
        ensures
            h@ == 0,
    {
        Fnv1aHasher { state: 0 }
    }
}

impl Fnv1aHasher {
    /// A hasher that has absorbed nothing.
    pub fn new() -> (h: Self)
        ensures
            h@ == FNV_OFFSET_BASIS,
    {
        Fnv1aHasher { state: FNV_OFFSET_BASIS }
    }

    /// Absorbs `bytes` in order.
    pub fn write(&mut self, bytes: &[u8])
        ensures
            final(self)@ == fnv1a_fold(old(self)@, bytes@),
    {
        let n: usize = bytes.len();
        let mut i: usize = 0;
        while i < n
            invariant
                n == bytes@.len(),
                i <= n,
                self.state == fnv1a_fold(old(self).state, bytes@.take(i as int)),
            decreases n - i,
        {
            let byte: u8 = bytes[i];
            proof {
                let next = bytes@.take(i as int + 1);
                assert(next.drop_last() =~= bytes@.take(i as int));
                assert(next.last() == byte);
            }
            self.state = (self.state ^ (byte as u32)).wrapping_mul(FNV_PRIME);
            i = i + 1;
        }
        proof {
            assert(bytes@.take(n as int) =~= bytes@);
        }
    }

    /// The current state, widened to 64 bits.
    pub fn finish(&self) -> (hash: u64)
        ensures
            hash == self@ as u64,
    {
        self.state as u64
    }
}

/// Absorbing nothing leaves every state as it was; in particular the hash of
/// the empty input is the offset basis.
pub proof fn lemma_fold_empty(state: u32)
    ensures
        fnv1a_fold(state, Seq::<u8>::empty()) == state,
        fnv1a(Seq::<u8>::empty()) == 0x811c9dc5,
{
}

/// Absorbing `a` and then `b` is absorbing their concatenation: the state
/// depends on the bytes seen, not on how they were split into writes.
pub proof fn lemma_fold_concat(state: u32, a: Seq<u8>, b: Seq<u8>)
    ensures
        fnv1a_fold(fnv1a_fold(state, a), b) == fnv1a_fold(state, a + b),
    decreases b.len(),
{
    if b.len() == 0 {
        assert(a + b =~= a);
    } else {
        lemma_fold_concat(state, a, b.drop_last());
        assert((a + b).drop_last() =~= a + b.drop_last());
        assert((a + b).last() == b.last());
    }
}

/// Equal inputs hash alike, whatever writes delivered them: two hashers
/// that start fresh and see byte sequences with equal concatenation end in
/// the same state.
pub proof fn lemma_hash_deterministic(a1: Seq<u8>, a2: Seq<u8>, b1: Seq<u8>, b2: Seq<u8>)
    requires
        a1 + a2 == b1 + b2,
    ensures
        fnv1a_fold(fnv1a_fold(FNV_OFFSET_BASIS, a1), a2) == fnv1a_fold(
            fnv1a_fold(FNV_OFFSET_BASIS, b1),
            b2,
        ),
        fnv1a_fold(fnv1a_fold(FNV_OFFSET_BASIS, a1), a2) as u64 == fnv1a(a1 + a2),
{
    lemma_fold_concat(FNV_OFFSET_BASIS, a1, a2);
    lemma_fold_concat(FNV_OFFSET_BASIS, b1, b2);
}

} // verus!
