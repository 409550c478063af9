//! Content hashing for the file registry.
//!
//! Registry entries identify file contents by a stable 64-bit hash.  Peers
//! must agree on the algorithm, so it is fixed here: FNV-1a with the standard
//! 64-bit offset basis and prime.

use vstd::prelude::*;

verus! {

pub const FNV_OFFSET: u64 = 0xcbf29ce484222325;

pub const FNV_PRIME: u64 = 0x100000001b3;

/// One FNV-1a round: fold the next byte into the running hash.
pub open spec fn fnv1a_step(h: u64, b: u8) -> u64 {
    (((h ^ (b as u64)) * (FNV_PRIME as int)) % 0x10000000000000000) as u64
}

/// FNV-1a hash of a byte sequence, processed left to right.
pub open spec fn fnv1a(data: Seq<u8>) -> u64
    decreases data.len(),
{
    if data.len() == 0 {
        FNV_OFFSET
    } else {
        fnv1a_step(fnv1a(data.drop_last()), data.last())
    }
}

/// The hash stored in the registry for a file with the given bytes.
pub fn hash_file(data: &Vec<u8>) -> (h: u64)
    ensures
        h == fnv1a(data@),
{
    let mut h: u64 = FNV_OFFSET;
    let mut i: usize = 0;
    while i < data.len()
        invariant
            i <= data.len(),
            h == fnv1a(data@.subrange(0, i as int)),
        decreases data.len() - i,
    {
        let b = data[i];
        h = (h ^ (b as u64)).wrapping_mul(FNV_PRIME);
        proof {
            assert(data@.subrange(0, i + 1 as int).drop_last() =~= data@.subrange(0, i as int));
            assert(data@.subrange(0, i + 1 as int).last() == data@[i as int]);
        }
        i = i + 1;
    }
    proof {
        assert(data@.subrange(0, data@.len() as int) =~= data@);
    }
    h
}

} // verus!
