//! FNV-1a content hash used to key decoded images by their encoded bytes.

use vstd::prelude::*;

verus! {

/// FNV-1a 64-bit offset basis.
pub const FNV_OFFSET: u64 = 0xcbf2_9ce4_8422_2325;

/// FNV-1a 64-bit prime.
pub const FNV_PRIME: u64 = 0x0000_0100_0000_01b3;

/// One FNV-1a round: xor the byte in, then multiply modulo 2^64.
pub open spec fn fnv_step(h: u64, b: u8) -> u64 {
    vstd::wrapping::u64_specs::wrapping_mul(h ^ (b as u64), FNV_PRIME)
}

/// FNV-1a of `bytes` starting from state `h`, one byte at a time.
pub open spec fn fnv1a_from(h: u64, bytes: Seq<u8>) -> u64
    decreases bytes.len(),
{
    if bytes.len() == 0 {
        h
    } else {
        fnv_step(fnv1a_from(h, bytes.drop_last()), bytes.last())
    }
}

/// The 64-bit FNV-1a hash of `bytes`.
pub open spec fn fnv1a(bytes: Seq<u8>) -> u64 {
    fnv1a_from(FNV_OFFSET, bytes)
}

proof fn lemma_fnv_prefix_step(bytes: Seq<u8>, i: int)
    requires
        0 <= i < bytes.len(),
    ensures
        fnv1a(bytes.take(i + 1)) == fnv_step(fnv1a(bytes.take(i)), bytes[i]),
{
    assert(bytes.take(i + 1).drop_last() =~= bytes.take(i));
}

#[inline(always)]
fn mix(h: u64, b: u8) -> (res: u64)
    ensures
        res == fnv_step(h, b),
{
    (h ^ (b as u64)).wrapping_mul(FNV_PRIME)
}

/// Hashes `bytes` with FNV-1a, eight bytes per round followed by the
/// remainder. The result is the plain byte-at-a-time FNV-1a hash.
pub fn hash_bytes(bytes: &[u8]) -> (res: u64)
    ensures
        res == fnv1a(bytes@),
{
    let len = bytes.len();
    let mut hash: u64 = FNV_OFFSET;
    let mut i: usize = 0;
    proof {
        assert(bytes@.take(0) =~= Seq::<u8>::empty());
    }
    while len - i >= 8
        invariant
            0 <= i <= len,
            len == bytes@.len(),
            hash == fnv1a(bytes@.take(i as int)),
        decreases len - i,
    {
        hash = mix(hash, bytes[i]);
        proof { lemma_fnv_prefix_step(bytes@, i as int); }
        hash = mix(hash, bytes[i + 1]);
        proof { lemma_fnv_prefix_step(bytes@, i + 1); }
        hash = mix(hash, bytes[i + 2]);
        proof { lemma_fnv_prefix_step(bytes@, i + 2); }
        hash = mix(hash, bytes[i + 3]);
        proof { lemma_fnv_prefix_step(bytes@, i + 3); }
        hash = mix(hash, bytes[i + 4]);
        proof { lemma_fnv_prefix_step(bytes@, i + 4); }
        hash = mix(hash, bytes[i + 5]);
        proof { lemma_fnv_prefix_step(bytes@, i + 5); }
        hash = mix(hash, bytes[i + 6]);
        proof { lemma_fnv_prefix_step(bytes@, i + 6); }
        hash = mix(hash, bytes[i + 7]);
        proof { lemma_fnv_prefix_step(bytes@, i + 7); }
        i = i + 8;
    }
    while i < len
        invariant
            0 <= i <= len,
            len == bytes@.len(),
            hash == fnv1a(bytes@.take(i as int)),
        decreases len - i,
    {
        hash = mix(hash, bytes[i]);
        proof { lemma_fnv_prefix_step(bytes@, i as int); }
        i = i + 1;
    }
    proof {
        assert(bytes@.take(len as int) =~= bytes@);
    }
    hash
}

} // verus!
