//! xxHash of a trit array, the baseline the Curl and Troika timings are
//! compared with.
use vstd::prelude::*;

verus! {

/// The XXH64 digest, seed 0, of a byte string.
pub uninterp spec fn xxh64_seed_0(bytes: Seq<u8>) -> u64;

/// The bytes of a trit array, each trit taken as the byte of the same bits.
pub open spec fn trit_bytes(trits: Seq<i8>) -> Seq<u8> {
    trits.map_values(|t: i8| t as u8)
}

/// `twox_hash::XxHash64` seeded with 0, fed `bytes` and finished: the
/// contract claims that the result is the XXH64 digest of `bytes` with
/// seed 0, a function of the bytes alone.
#[verifier::external_body]
fn xxh64_digest(bytes: &[u8]) -> (r: u64)
    ensures
        r == xxh64_seed_0(bytes@),
{
    let mut hasher = twox_hash::XxHash64::with_seed(0);
    std::hash::Hasher::write(&mut hasher, bytes);
    std::hash::Hasher::finish(&hasher)
}

/// The xxHash (XXH64, seed 0) of the bytes of `trits`.
pub fn xxhash(trits: &[i8]) -> (r: u64)
    ensures
        r == xxh64_seed_0(trit_bytes(trits@)),
{
    let mut bytes: Vec<u8> = Vec::new();
    for i in 0..trits.len()
        invariant
            bytes@ == trit_bytes(trits@.take(i as int)),
    {
        bytes.push(trits[i] as u8);
        assert(trit_bytes(trits@.take(i + 1)) =~= trit_bytes(trits@.take(i as int)).push(
            trits@[i as int] as u8,
        ));
    }
    assert(trits@.take(trits@.len() as int) =~= trits@);
    xxh64_digest(bytes.as_slice())
}

} // verus!
