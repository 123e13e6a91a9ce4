//! Fast content hashing for dirty-tracking, backed by the XXHash digest.
//!
//! The digest is only ever used as a sound fast path: differing digests
//! prove differing inputs, equal digests fall back to a full comparison.
use vstd::prelude::*;

verus! {

/// Digest that the 64-bit XXHash assigns to a byte string (with seed 0):
/// a function of the bytes alone.
pub uninterp spec fn xxh64_of(bytes: Seq<u8>) -> u64;

/// Relies on `twox_hash::XxHash64::oneshot`: the 64-bit XXHash digest,
/// computed from the seed and the input bytes alone.
#[verifier::external_body]
pub fn xxhash64(bytes: &Vec<u8>) -> (r: u64)
    ensures
        r == xxh64_of(bytes@),
{
    twox_hash::XxHash64::oneshot(0, bytes.as_slice())
}

/// Append `b` to `out`.
pub fn push_bytes(out: &mut Vec<u8>, b: &Vec<u8>)
    ensures
        final(out)@ == old(out)@ + b@,
{
    let mut i: usize = 0;
    while i < b.len()
        invariant
            i <= b@.len(),
            out@ == old(out)@ + b@.subrange(0, i as int),
        decreases b@.len() - i,
    {
        out.push(b[i]);
        proof {
            assert(old(out)@ + b@.subrange(0, i as int + 1) =~= (old(out)@ + b@.subrange(
                0,
                i as int,
            )).push(b@[i as int]));
        }
        i += 1;
    }
    proof {
        assert(b@.subrange(0, b@.len() as int) =~= b@);
    }
}

} // verus!
