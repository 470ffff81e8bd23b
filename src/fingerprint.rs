use vstd::prelude::*;

verus! {

/// Seed of every fingerprint.
pub const FINGERPRINT_SEED: u64 = 0x1337;

/// The 64-bit ChibiHash (version 1) digest of `data` under `seed`.
pub uninterp spec fn chibi_digest(seed: u64, data: Seq<u8>) -> u64;

/// Relies on chibihash's `StreamingChibiHasher` (new, update, finalize): the
/// digest depends on the seed and the bytes fed in alone.
#[verifier::external_body]
fn streaming_chibi_hash(seed: u64, data: &[u8]) -> (r: u64)
    ensures
        r == chibi_digest(seed, data@),
{
    let mut hasher = chibihash::StreamingChibiHasher::new(seed);
    hasher.update(data);
    hasher.finalize()
}

/// Fingerprint of a byte string.
pub fn fingerprint(data: &Vec<u8>) -> (r: u64)
    ensures
        r == chibi_digest(FINGERPRINT_SEED, data@),
{
    streaming_chibi_hash(FINGERPRINT_SEED, data.as_slice())
}

/// The eight bytes of `x`, least significant first.
pub open spec fn le_bytes(x: u64) -> Seq<u8> {
    Seq::new(8, |i: int| ((x >> ((8 * i) as u64)) & 0xff) as u8)
}

/// Appends the eight bytes of `x`, least significant first.
pub fn push_le_bytes(out: &mut Vec<u8>, x: u64)
    ensures
        final(out)@ == old(out)@ + le_bytes(x),
{
    let ghost start = out@;
    let mut k: u64 = 0;
    while k < 8
        invariant
            k <= 8,
            out@ == start + le_bytes(x).take(k as int),
        decreases 8 - k,
    {
        let b: u8 = ((x >> (8 * k)) & 0xff) as u8;
        out.push(b);
        assert(le_bytes(x).take(k as int + 1) =~= le_bytes(x).take(k as int).push(b));
        k = k + 1;
    }
    assert(le_bytes(x).take(8) =~= le_bytes(x));
}

} // verus!
