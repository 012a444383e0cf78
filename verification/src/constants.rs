use vstd::prelude::*;

verus! {

// +------------- GENERAL ----------------
/// Number of trits in a Curl hash.
pub const HASH_LENGTH: usize = 243;

/// Number of trits in the Curl state.
pub const STATE_LENGTH: usize = 3 * HASH_LENGTH;

/// Number of trits in a transaction.
pub const TRANSACTION_TRIT_LENGTH: usize = 8019;

/// Size of the benchmark workload.
pub const NUM_HASHES: usize = 5_000;

// +-------------- CURL ----------------
/// Number of rounds of Curl-P used by IOTA.
pub const NUM_CURL_ROUNDS: usize = 81;

/// The Curl S-box, indexed by `a + 4 * b + 5` for the trits `a` and `b`.
pub const TRUTH_TABLE: [i8; 11] = [1, 0, -1, 2, 1, -1, 0, 2, -1, 1, 0];

// +------------- TROIKA ----------------
/// Number of rounds of the Troika permutation.
pub const NUM_TROIKA_ROUNDS: usize = 24;

// +-------------- BCT ----------------
/// Largest batch of a 64 bit binary-encoded-trinary word.
pub const MAX_BATCH_SIZE_64: usize = 64;

/// Largest batch of a 128 bit binary-encoded-trinary word.
pub const MAX_BATCH_SIZE_128: usize = 128;

/// A 64 bit word with every bit set.
pub const HIGH_U64_BITS: u64 = 0xFFFF_FFFF_FFFF_FFFF;

/// A signed 64 bit word with every bit set.
pub const HIGH_I64_BITS: i64 = -1;

/// A 128 bit word with every bit set.
pub const HIGH_U128_BITS: u128 = 0xFFFF_FFFF_FFFF_FFFF_FFFF_FFFF_FFFF_FFFF;

} // verus!
