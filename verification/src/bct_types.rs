//! Binary-encoded trits: one trit per lane of a pair of words.
// hi lo trit
// 0  0   ?
// 0  1   -1
// 1  0   1
// 1  1   0
use vstd::prelude::*;

verus! {

/// One binary-encoded trit for each of 64 lanes.
pub struct Trit64 {
    pub lo: u64,
    pub hi: u64,
}

impl Default for Trit64 {
    fn default() -> (r: Self)
        ensures
            r.lo == 0,
            r.hi == 0,
    {
        Trit64 { lo: 0, hi: 0 }
    }
}

/// One binary-encoded trit for each of 128 lanes.
pub struct Trit128 {
    pub lo: u128,
    pub hi: u128,
}

impl Default for Trit128 {
    fn default() -> (r: Self)
        ensures
            r.lo == 0,
            r.hi == 0,
    {
        Trit128 { lo: 0, hi: 0 }
    }
}

/// A sequence of binary-encoded trits, 64 lanes wide.
pub struct Trits64 {
    pub lo: Vec<u64>,
    pub hi: Vec<u64>,
}

impl Default for Trits64 {
    fn default() -> (r: Self)
        ensures
            r.lo@ == Seq::<u64>::empty(),
            r.hi@ == Seq::<u64>::empty(),
    {
        Trits64 { lo: Vec::new(), hi: Vec::new() }
    }
}

impl Trits64 {
    /// Pairs up the `lo` and the `hi` words.
    pub fn from(lo: Vec<u64>, hi: Vec<u64>) -> (r: Self)
        ensures
            r.lo == lo,
            r.hi == hi,
    {
        Trits64 { lo, hi }
    }
}

/// A sequence of binary-encoded trits, 128 lanes wide.
pub struct Trits128 {
    pub lo: Vec<u128>,
    pub hi: Vec<u128>,
}

impl Default for Trits128 {
    fn default() -> (r: Self)
        ensures
            r.lo@ == Seq::<u128>::empty(),
            r.hi@ == Seq::<u128>::empty(),
    {
        Trits128 { lo: Vec::new(), hi: Vec::new() }
    }
}

impl Trits128 {
    /// Pairs up the `lo` and the `hi` words.
    pub fn from(lo: Vec<u128>, hi: Vec<u128>) -> (r: Self)
        ensures
            r.lo == lo,
            r.hi == hi,
    {
        Trits128 { lo, hi }
    }
}

} // verus!
