//! The streaming 32-bit FNV-1 hash: a from-scratch entry point, a
//! continuation entry point, and the law that ties the two together.

use vstd::prelude::*;

verus! {

/// Multiplier of the 32-bit FNV-1 hash.
pub const FNV_PRIME: u32 = 16777619;

/// Offset basis of the 32-bit FNV-1 hash.
pub const FNV_OFFSET: u32 = 2166136261;

/// One step of the hash: multiply the state by the prime modulo `2^32`,
/// then exclusive-or in one byte.
pub open spec fn fnv1_step(h: u32, b: u8) -> u32 {
    (((h * FNV_PRIME) % 0x1_0000_0000) as u32) ^ (b as u32)
}

/// The state reached by feeding the bytes of `s`, in order, into state `h`.
pub open spec fn fnv1_from(h: u32, s: Seq<u8>) -> u32
    decreases s.len(),
{
    if s.len() == 0 {
        h
    } else {
        fnv1_step(fnv1_from(h, s.drop_last()), s.last())
    }
}

/// The hash of `s` from scratch: fed into the offset basis.
pub open spec fn fnv1_of(s: Seq<u8>) -> u32 {
    fnv1_from(FNV_OFFSET, s)
}

/// Hashes `data` from scratch.
pub fn fnv1_32(data: &[u8]) -> (h: u32)
    ensures
        h == fnv1_of(data@),
{
    fnv1_continue(FNV_OFFSET, data)
}

/// Resumes the hash from a caller-supplied state.
pub fn fnv1_continue(state: u32, data: &[u8]) -> (h: u32)
    ensures
        h == fnv1_from(state, data@),
{
    let mut hash: u32 = state;
    let mut i: usize = 0;
    while i < data.len()
        invariant
            i <= data@.len(),
            hash == fnv1_from(state, data@.take(i as int)),
        decreases data@.len() - i,
    {
        let ghost pre = data@.take(i as int);
        hash = hash.wrapping_mul(FNV_PRIME);
        hash = hash ^ (data[i] as u32);
        proof {
            assert(data@.take(i + 1).drop_last() =~= pre);
            assert(data@.take(i + 1).last() == data@[i as int]);
        }
        i = i + 1;
    }
    proof {
        assert(data@.take(data@.len() as int) =~= data@);
    }
    hash
}

/// Feeding a concatenation is feeding the two parts in turn.
proof fn lemma_fnv1_from_concat(h: u32, a: Seq<u8>, b: Seq<u8>)
    ensures
        fnv1_from(h, a + b) == fnv1_from(fnv1_from(h, a), b),
    decreases b.len(),
{
    if b.len() == 0 {
        assert(a + b =~= a);
    } else {
        lemma_fnv1_from_concat(h, a, b.drop_last());
        assert((a + b).drop_last() =~= a + b.drop_last());
    }
}

/// Continuing from the hash of `a` over the bytes of `b` is bit-for-bit the
/// hash of the concatenation `a ++ b` from scratch: the invariant that makes
/// precomputing partial states sound.
pub proof fn lemma_continue_matches_scratch(a: Seq<u8>, b: Seq<u8>)
    ensures
        fnv1_from(fnv1_of(a), b) == fnv1_of(a + b),
{
    lemma_fnv1_from_concat(FNV_OFFSET, a, b);
}

} // verus!
