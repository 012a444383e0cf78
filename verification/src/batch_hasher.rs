//! Batches of trit arrays waiting to be hashed together.
use vstd::prelude::*;

verus! {

/// Batches up to 64 trit arrays.
pub struct Batch64Hasher {
    hash_length: usize,
    num_rounds: usize,
}

impl Batch64Hasher {
    /// The number of trits in a hash.
    pub closed spec fn hash_length(&self) -> usize {
        self.hash_length
    }

    /// The number of Curl rounds.
    pub closed spec fn num_rounds(&self) -> usize {
        self.num_rounds
    }

    /// A batch hasher for hashes of `hash_length` trits and `num_rounds`
    /// rounds of Curl.
    pub fn from(hash_length: usize, num_rounds: usize) -> (r: Self)
        ensures
            r.hash_length() == hash_length,
            r.num_rounds() == num_rounds,
    {
        Batch64Hasher { hash_length, num_rounds }
    }
}

/// Batches up to 128 trit arrays.
pub struct Batch128Hasher {
    hash_length: usize,
    num_rounds: usize,
}

impl Batch128Hasher {
    /// The number of trits in a hash.
    pub closed spec fn hash_length(&self) -> usize {
        self.hash_length
    }

    /// The number of Curl rounds.
    pub closed spec fn num_rounds(&self) -> usize {
        self.num_rounds
    }
}

} // verus!
