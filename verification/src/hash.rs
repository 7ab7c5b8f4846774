//! Content addressing: a deterministic, non-cryptographic 64-bit hash
//! (FNV-1a) over encoded bytes, rendered as an 8-byte big-endian identifier.

use vstd::prelude::*;

verus! {

/// An 8-byte content address: the big-endian FNV-1a hash of a blob's bytes.
/// Two blobs with identical bytes always collide to the same id by design;
/// that is the deduplication mechanism.
pub type ValueId = [u8; 8];

/// The FNV-1a 64-bit offset basis.
pub const FNV_OFFSET_BASIS: u64 = 0xcbf29ce484222325;

/// The FNV-1a 64-bit prime.
pub const FNV_PRIME: u64 = 0x100000001b3;

/// One FNV-1a round: fold one byte into the running hash.
pub open spec fn fnv1a_step(h: u64, b: u8) -> u64 {
    (h ^ (b as u64)).wrapping_mul(FNV_PRIME)
}

/// The FNV-1a 64-bit hash of a byte sequence, processed left to right.
pub open spec fn fnv1a(bytes: Seq<u8>) -> u64
    decreases bytes.len(),
{
    if bytes.len() == 0 {
        FNV_OFFSET_BASIS
    } else {
        fnv1a_step(fnv1a(bytes.drop_last()), bytes.last())
    }
}

/// The big-endian bytes of a 64-bit word, most significant first.
pub open spec fn u64_be_bytes(x: u64) -> Seq<u8> {
    seq![
        (x >> 56) as u8,
        (x >> 48) as u8,
        (x >> 40) as u8,
        (x >> 32) as u8,
        (x >> 24) as u8,
        (x >> 16) as u8,
        (x >> 8) as u8,
        x as u8,
    ]
}

/// The content address of a byte buffer: 8 big-endian bytes of its FNV-1a hash.
pub open spec fn spec_id_of(bytes: Seq<u8>) -> Seq<u8> {
    u64_be_bytes(fnv1a(bytes))
}

/// Computes the content address of an encoded byte buffer.  Equal inputs give
/// equal ids (the function of the bytes alone), which underlies deduplication.
pub fn value_id_of(data: &Vec<u8>) -> (r: ValueId)
    ensures
        r@ == spec_id_of(data@),
{
    let mut h: u64 = FNV_OFFSET_BASIS;
    let mut i: usize = 0;
    while i < data.len()
        invariant
            i <= data.len(),
            h == fnv1a(data@.take(i as int)),
        decreases data.len() - i,
    {
        let b = data[i];
        h = (h ^ (b as u64)).wrapping_mul(FNV_PRIME);
        proof {
            assert(data@.take(i + 1 as int).drop_last() =~= data@.take(i as int));
            assert(data@.take(i + 1 as int).last() == b);
        }
        i = i + 1;
    }
    proof {
        assert(data@.take(data.len() as int) =~= data@);
    }
    let r: ValueId = [
        #[verifier::truncate] ((h >> 56) as u8),
        #[verifier::truncate] ((h >> 48) as u8),
        #[verifier::truncate] ((h >> 40) as u8),
        #[verifier::truncate] ((h >> 32) as u8),
        #[verifier::truncate] ((h >> 24) as u8),
        #[verifier::truncate] ((h >> 16) as u8),
        #[verifier::truncate] ((h >> 8) as u8),
        #[verifier::truncate] (h as u8),
    ];
    proof {
        assert(r@ =~= u64_be_bytes(h));
    }
    r
}

} // verus!
