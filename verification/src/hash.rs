//! The block hash used by the fingerprinter: 64-bit FNV-1a over the
//! block's exact bytes. The hash is a deliberate, lossy heuristic —
//! collisions across distinct blocks are an accepted approximation in
//! the similarity scoring this feeds.

use vstd::prelude::*;

verus! {

/// FNV-1a 64-bit offset basis.
pub const FNV_OFFSET: u64 = 0xcbf29ce484222325;

/// FNV-1a 64-bit prime.
pub const FNV_PRIME: u64 = 0x100000001b3;

/// One FNV-1a round: fold `byte` into the state `h`.
pub open spec fn fnv_step(h: u64, byte: u8) -> u64 {
    (h ^ (byte as u64)).wrapping_mul(FNV_PRIME)
}

/// The FNV-1a state after folding every byte of `s` into `h` in order.
pub open spec fn fnv_from(h: u64, s: Seq<u8>) -> u64
    decreases s.len(),
{
    if s.len() == 0 {
        h
    } else {
        fnv_from(fnv_step(h, s[0]), s.drop_first())
    }
}

/// The FNV-1a 64-bit hash of a byte sequence.
pub open spec fn hash_bytes(s: Seq<u8>) -> u64 {
    fnv_from(FNV_OFFSET, s)
}

/// Computes the FNV-1a 64-bit hash of `block`.
pub fn block_hash(block: &Vec<u8>) -> (r: u64)
    ensures
        r == hash_bytes(block@),
{
    let mut h: u64 = FNV_OFFSET;
    let mut i: usize = 0;
    proof {
        assert(block@.skip(0) =~= block@);
    }
    while i < block.len()
        invariant
            i <= block@.len(),
            fnv_from(h, block@.skip(i as int)) == hash_bytes(block@),
        decreases block@.len() - i,
    {
        proof {
            assert(block@.skip(i as int)[0] == block@[i as int]);
            assert(block@.skip(i as int).drop_first() =~= block@.skip(i as int + 1));
        }
        h = (h ^ (block[i] as u64)).wrapping_mul(FNV_PRIME);
        i = i + 1;
    }
    proof {
        assert(block@.skip(block@.len() as int) =~= Seq::<u8>::empty());
    }
    h
}

} // verus!
