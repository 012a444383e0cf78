//! Interlacing trit arrays into binary-encoded words, one array per lane,
//! and taking a lane back out.
use vstd::prelude::*;
use crate::bct_types::{Trits64, Trits128};
use crate::bct_spec::{bit64, bit128, bit_i64, decode, encode, encode_lane, decode_lane, lane_u64, lane_u128};
use crate::curl_spec::{all_trits, is_trit};

verus! {

/// Collects trit arrays to be interlaced into binary-encoded words.
pub struct BCTMultiplexer {
    trinaries: Vec<Vec<i8>>,
}

impl View for BCTMultiplexer {
    type V = Seq<Seq<i8>>;

    closed spec fn view(&self) -> Seq<Seq<i8>> {
        self.trinaries@.map_values(|v: Vec<i8>| v@)
    }
}

impl Default for BCTMultiplexer {
    fn default() -> (r: Self)
        ensures
            r@ == Seq::<Seq<i8>>::empty(),
    {
        let r = BCTMultiplexer { trinaries: Vec::new() };
        assert(r@ =~= Seq::<Seq<i8>>::empty());
        r
    }
}

/// `m` can be interlaced into words of `width` lanes: it holds between 1 and
/// `width` arrays, none shorter than the first, and the first `m[0].len()`
/// entries of each are balanced trits.
pub open spec fn interlaceable(m: Seq<Seq<i8>>, width: nat) -> bool {
    &&& 0 < m.len() <= width
    &&& forall|j: int| 0 <= j < m.len() ==> #[trigger] m[j].len() >= m[0].len()
    &&& forall|j: int, i: int|
        0 <= j < m.len() && 0 <= i < m[0].len() ==> is_trit(#[trigger] m[j][i])
}

/// `(lo, hi)` holds the first `m[0].len()` trits of every array of `m`, array
/// `j` in lane `j` of 64 bit words; the lanes past `m.len()` are all zero.
pub open spec fn interlaced_u64(m: Seq<Seq<i8>>, lo: Seq<u64>, hi: Seq<u64>) -> bool {
    &&& m.len() > 0
    &&& lo.len() == m[0].len()
    &&& hi.len() == lo.len()
    &&& forall|i: int, j: u64|
        0 <= i < lo.len() && j < 64 ==> #[trigger] bit64(lo[i], j) == (j < m.len() && m[j as int][i]
            != 1)
    &&& forall|i: int, j: u64|
        0 <= i < lo.len() && j < 64 ==> #[trigger] bit64(hi[i], j) == (j < m.len() && m[j as int][i]
            != -1)
}

/// `(lo, hi)` holds the first `m[0].len()` trits of every array of `m`, array
/// `j` in lane `j` of 128 bit words; the lanes past `m.len()` are all zero.
pub open spec fn interlaced_u128(m: Seq<Seq<i8>>, lo: Seq<u128>, hi: Seq<u128>) -> bool {
    &&& m.len() > 0
    &&& lo.len() == m[0].len()
    &&& hi.len() == lo.len()
    &&& forall|i: int, j: u128|
        0 <= i < lo.len() && j < 128 ==> #[trigger] bit128(lo[i], j) == (j < m.len() && m[j as int][i]
            != 1)
    &&& forall|i: int, j: u128|
        0 <= i < lo.len() && j < 128 ==> #[trigger] bit128(hi[i], j) == (j < m.len() && m[j as int][i]
            != -1)
}

proof fn lemma_set_bit_u64(x: u64, j: u64, k: u64)
    by (bit_vector)
    requires
        j < 64,
        k < 64,
    ensures
        bit64(x | (1u64 << j), k) == (bit64(x, k) || k == j),
{
}

proof fn lemma_zero_bit_u64(k: u64)
    by (bit_vector)
    requires
        k < 64,
    ensures
        !bit64(0u64, k),
{
}

proof fn lemma_set_bit_u128(x: u128, j: u128, k: u128)
    by (bit_vector)
    requires
        j < 128,
        k < 128,
    ensures
        bit128(x | (1u128 << j), k) == (bit128(x, k) || k == j),
{
}

proof fn lemma_zero_bit_u128(k: u128)
    by (bit_vector)
    requires
        k < 128,
    ensures
        !bit128(0u128, k),
{
}

impl BCTMultiplexer {
    /// Drops every array.
    pub fn reset(&mut self)
        ensures
            final(self)@ == Seq::<Seq<i8>>::empty(),
    {
        self.trinaries.clear();
        assert(self@ =~= Seq::<Seq<i8>>::empty());
    }

    /// Appends a copy of `trits`.
    pub fn add(&mut self, trits: &[i8])
        ensures
            final(self)@ == old(self)@.push(trits@),
    {
        self.trinaries.push(vstd::slice::slice_to_vec(trits));
        assert(self@ =~= old(self)@.push(trits@));
    }

    /// The array at `index`.
    pub fn get(&self, index: usize) -> (r: &Vec<i8>)
        requires
            index < self@.len(),
        ensures
            r@ == self@[index as int],
    {
        &self.trinaries[index]
    }

    /// The number of arrays.
    pub fn len(&self) -> (r: usize)
        ensures
            r == self@.len(),
    {
        self.trinaries.len()
    }

    /// Whether there is no array.
    pub fn is_empty(&self) -> (r: bool)
        ensures
            r == (self@.len() == 0),
    {
        self.trinaries.is_empty()
    }

    /// Interlaces the arrays into 64 bit words, array `j` in lane `j`.
    pub fn extract64(&self) -> (r: Trits64)
        requires
            interlaceable(self@, 64),
        ensures
            interlaced_u64(self@, r.lo@, r.hi@),
    {
        let trinaries_count = self.trinaries.len();
        let trits_count = self.trinaries[0].len();
        let (lo, hi) = interlace_u64(&self.trinaries, trinaries_count, trits_count);
        Trits64 { lo, hi }
    }

    /// Interlaces the arrays into 128 bit words, array `j` in lane `j`.
    pub fn extract128(&self) -> (r: Trits128)
        requires
            interlaceable(self@, 128),
        ensures
            interlaced_u128(self@, r.lo@, r.hi@),
    {
        let trinaries_count = self.trinaries.len();
        let trits_count = self.trinaries[0].len();
        let (lo, hi) = interlace_u128(&self.trinaries, trinaries_count, trits_count);
        Trits128 { lo, hi }
    }
}

/// Takes lane `index` back out of 64 bit binary-encoded words.
pub struct BCTDemultiplexer64 {
    trits: Trits64,
}

impl BCTDemultiplexer64 {
    /// The `lo` words.
    pub closed spec fn lo(&self) -> Seq<u64> {
        self.trits.lo@
    }

    /// The `hi` words.
    pub closed spec fn hi(&self) -> Seq<u64> {
        self.trits.hi@
    }

    /// A demultiplexer for the words `trits`.
    pub fn from(trits: Trits64) -> (r: Self)
        ensures
            r.lo() == trits.lo@,
            r.hi() == trits.hi@,
    {
        BCTDemultiplexer64 { trits }
    }

    /// The trits of lane `index`, one for each pair of words.
    pub fn get(&self, index: usize) -> (r: Vec<i8>)
        requires
            index < 64,
            self.hi().len() >= self.lo().len(),
        ensures
            r@ == decode_lane(lane_u64(self.lo(), self.hi(), index as u64)),
    {
        let length = self.trits.lo.len();
        let mut result = vec![0i8; length];

        for i in 0..length
            invariant
                length == self.lo().len(),
                self.hi().len() >= self.lo().len(),
                index < 64,
                result@.len() == length,
                forall|ii: int|
                    0 <= ii < i ==> #[trigger] result@[ii] == decode_lane(
                        lane_u64(self.lo(), self.hi(), index as u64),
                    )[ii],
        {
            let lo = (self.trits.lo[i] >> index) & 0x1;
            let hi = (self.trits.hi[i] >> index) & 0x1;
            proof {
                lemma_lane_bit_u64(self.trits.lo[i as int], index as u64);
                lemma_lane_bit_u64(self.trits.hi[i as int], index as u64);
            }
            match (lo, hi) {
                (1, 0) => result[i] = -1,
                (0, 1) => result[i] = 1,
                (_, _) => result[i] = 0,
            }
        }
        assert(result@ =~= decode_lane(lane_u64(self.lo(), self.hi(), index as u64)));
        result
    }
}

/// Takes lane `index` back out of 128 bit binary-encoded words.
pub struct BCTDemultiplexer128 {
    trits: Trits128,
}

impl BCTDemultiplexer128 {
    /// The `lo` words.
    pub closed spec fn lo(&self) -> Seq<u128> {
        self.trits.lo@
    }

    /// The `hi` words.
    pub closed spec fn hi(&self) -> Seq<u128> {
        self.trits.hi@
    }

    /// A demultiplexer for the words `trits`.
    pub fn from(trits: Trits128) -> (r: Self)
        ensures
            r.lo() == trits.lo@,
            r.hi() == trits.hi@,
    {
        BCTDemultiplexer128 { trits }
    }

    /// The trits of lane `index`, one for each pair of words.
    pub fn get(&self, index: usize) -> (r: Vec<i8>)
        requires
            index < 128,
            self.hi().len() >= self.lo().len(),
        ensures
            r@ == decode_lane(lane_u128(self.lo(), self.hi(), index as u128)),
    {
        let length = self.trits.lo.len();
        let mut result = vec![0i8; length];

        for i in 0..length
            invariant
                length == self.lo().len(),
                self.hi().len() >= self.lo().len(),
                index < 128,
                result@.len() == length,
                forall|ii: int|
                    0 <= ii < i ==> #[trigger] result@[ii] == decode_lane(
                        lane_u128(self.lo(), self.hi(), index as u128),
                    )[ii],
        {
            let lo = (self.trits.lo[i] >> index) & 0x1;
            let hi = (self.trits.hi[i] >> index) & 0x1;
            proof {
                lemma_lane_bit_u128(self.trits.lo[i as int], index as u128);
                lemma_lane_bit_u128(self.trits.hi[i as int], index as u128);
            }
            match (lo, hi) {
                (1, 0) => result[i] = -1,
                (0, 1) => result[i] = 1,
                (_, _) => result[i] = 0,
            }
        }
        assert(result@ =~= decode_lane(lane_u128(self.lo(), self.hi(), index as u128)));
        result
    }
}

proof fn lemma_lane_bit_u64(x: u64, j: u64)
    by (bit_vector)
    requires
        j < 64,
    ensures
        (x >> j) & 1u64 == 0u64 || (x >> j) & 1u64 == 1u64,
        bit64(x, j) == ((x >> j) & 1u64 == 1u64),
{
}

proof fn lemma_lane_bit_u128(x: u128, j: u128)
    by (bit_vector)
    requires
        j < 128,
    ensures
        (x >> j) & 1u128 == 0u128 || (x >> j) & 1u128 == 1u128,
        bit128(x, j) == ((x >> j) & 1u128 == 1u128),
{
}

/// Interlacing then taking lane `j` back out gives array `j` back: lane `j`
/// of 64 bit words interlaced from `m` encodes `m[j]`.
pub proof fn lemma_demux_of_mux_u64(m: Seq<Seq<i8>>, lo: Seq<u64>, hi: Seq<u64>, j: u64)
    requires
        interlaced_u64(m, lo, hi),
        j < 64,
        j < m.len(),
        m[j as int].len() == lo.len(),
        all_trits(m[j as int]),
    ensures
        lane_u64(lo, hi, j) == encode_lane(m[j as int]),
        decode_lane(lane_u64(lo, hi, j)) == m[j as int],
{
    assert forall|i: int| 0 <= i < lo.len() implies #[trigger] lane_u64(lo, hi, j)[i] == encode(
        m[j as int][i],
    ) && decode(encode(m[j as int][i])) == m[j as int][i] by {
        assert(bit64(lo[i], j) == (j < m.len() && m[j as int][i] != 1));
        assert(bit64(hi[i], j) == (j < m.len() && m[j as int][i] != -1));
        assert(is_trit(m[j as int][i]));
    }
    assert(lane_u64(lo, hi, j) =~= encode_lane(m[j as int]));
    assert(decode_lane(lane_u64(lo, hi, j)) =~= m[j as int]);
}

/// Interlacing then taking lane `j` back out gives array `j` back: lane `j`
/// of 128 bit words interlaced from `m` encodes `m[j]`.
pub proof fn lemma_demux_of_mux_u128(m: Seq<Seq<i8>>, lo: Seq<u128>, hi: Seq<u128>, j: u128)
    requires
        interlaced_u128(m, lo, hi),
        j < 128,
        j < m.len(),
        m[j as int].len() == lo.len(),
        all_trits(m[j as int]),
    ensures
        lane_u128(lo, hi, j) == encode_lane(m[j as int]),
        decode_lane(lane_u128(lo, hi, j)) == m[j as int],
{
    assert forall|i: int| 0 <= i < lo.len() implies #[trigger] lane_u128(lo, hi, j)[i] == encode(
        m[j as int][i],
    ) && decode(encode(m[j as int][i])) == m[j as int][i] by {
        assert(bit128(lo[i], j) == (j < m.len() && m[j as int][i] != 1));
        assert(bit128(hi[i], j) == (j < m.len() && m[j as int][i] != -1));
        assert(is_trit(m[j as int][i]));
    }
    assert(lane_u128(lo, hi, j) =~= encode_lane(m[j as int]));
    assert(decode_lane(lane_u128(lo, hi, j)) =~= m[j as int]);
}

/// The first `count` arrays of `m` can be interlaced over their first `n`
/// trits into words of `width` lanes.
pub open spec fn interlaceable_prefix(m: Seq<Seq<i8>>, count: nat, n: nat, width: nat) -> bool {
    &&& count <= m.len()
    &&& count <= width
    &&& forall|j: int| 0 <= j < count ==> #[trigger] m[j].len() >= n
    &&& forall|j: int, i: int| 0 <= j < count && 0 <= i < n ==> is_trit(#[trigger] m[j][i])
}

/// `(lo, hi)` holds the first `n` trits of the first `count` arrays of `m`,
/// array `j` in lane `j` of 64 bit words; the other lanes are all zero.
pub open spec fn interlaced_prefix_u64(m: Seq<Seq<i8>>, count: nat, n: nat, lo: Seq<u64>, hi: Seq<u64>) -> bool {
    &&& lo.len() == n
    &&& hi.len() == n
    &&& forall|i: int, j: u64|
        0 <= i < n && j < 64 ==> #[trigger] bit64(lo[i], j) == (j < count && m[j as int][i] != 1)
    &&& forall|i: int, j: u64|
        0 <= i < n && j < 64 ==> #[trigger] bit64(hi[i], j) == (j < count && m[j as int][i] != -1)
}

/// Interlaces the first `trits_count` trits of the first `trinaries_count`
/// arrays of `trinaries` into 64 bit words, array `j` in lane `j`.
pub fn interlace_u64(trinaries: &[Vec<i8>], trinaries_count: usize, trits_count: usize) -> (r: (
    Vec<u64>,
    Vec<u64>,
))
    requires
        interlaceable_prefix(
            trinaries@.map_values(|v: Vec<i8>| v@),
            trinaries_count as nat,
            trits_count as nat,
            64,
        ),
    ensures
        interlaced_prefix_u64(
            trinaries@.map_values(|v: Vec<i8>| v@),
            trinaries_count as nat,
            trits_count as nat,
            r.0@,
            r.1@,
        ),
{
    let ghost m = trinaries@.map_values(|v: Vec<i8>| v@);
    let mut result_lo: Vec<u64> = vec![0; trits_count];
    let mut result_hi: Vec<u64> = vec![0; trits_count];

    for i in 0..trits_count
        invariant
            m == trinaries@.map_values(|v: Vec<i8>| v@),
            interlaceable_prefix(m, trinaries_count as nat, trits_count as nat, 64),
            result_lo@.len() == trits_count,
            result_hi@.len() == trits_count,
            forall|ii: int, k: u64|
                0 <= ii < i && k < 64 ==> #[trigger] bit64(result_lo@[ii], k) == (k < trinaries_count
                    && m[k as int][ii] != 1),
            forall|ii: int, k: u64|
                0 <= ii < i && k < 64 ==> #[trigger] bit64(result_hi@[ii], k) == (k < trinaries_count
                    && m[k as int][ii] != -1),
            forall|ii: int| i <= ii < trits_count ==> result_lo@[ii] == 0 && result_hi@[ii] == 0,
    {
        proof {
            assert forall|k: u64| k < 64 implies !#[trigger] bit64(0u64, k) by {
                lemma_zero_bit_u64(k);
            }
        }
        for j in 0..trinaries_count
            invariant
                m == trinaries@.map_values(|v: Vec<i8>| v@),
                interlaceable_prefix(m, trinaries_count as nat, trits_count as nat, 64),
                0 <= i < trits_count,
                result_lo@.len() == trits_count,
                result_hi@.len() == trits_count,
                forall|ii: int, k: u64|
                    0 <= ii < i && k < 64 ==> #[trigger] bit64(result_lo@[ii], k) == (k
                        < trinaries_count && m[k as int][ii] != 1),
                forall|ii: int, k: u64|
                    0 <= ii < i && k < 64 ==> #[trigger] bit64(result_hi@[ii], k) == (k
                        < trinaries_count && m[k as int][ii] != -1),
                forall|ii: int| i < ii < trits_count ==> result_lo@[ii] == 0 && result_hi@[ii] == 0,
                forall|k: u64|
                    k < 64 ==> #[trigger] bit64(result_lo@[i as int], k) == (k < j && m[k as int][i as int]
                        != 1),
                forall|k: u64|
                    k < 64 ==> #[trigger] bit64(result_hi@[i as int], k) == (k < j && m[k as int][i as int]
                        != -1),
        {
            proof {
                assert(m[j as int].len() >= trits_count);
                assert(is_trit(m[j as int][i as int]));
            }
            let t = trinaries[j][i];
            let ghost old_lo = result_lo@[i as int];
            let ghost old_hi = result_hi@[i as int];
            let mask: u64 = 1u64 << (j as u64);
            if t == 0 {
                result_lo[i] = result_lo[i] | mask;
                result_hi[i] = result_hi[i] | mask;
            } else if t == 1 {
                result_hi[i] = result_hi[i] | mask;
            } else {
                result_lo[i] = result_lo[i] | mask;
            }
            proof {
                assert forall|k: u64| k < 64 implies #[trigger] bit64(result_lo@[i as int], k) == (k < j
                    + 1 && m[k as int][i as int] != 1) by {
                    lemma_set_bit_u64(old_lo, j as u64, k);
                }
                assert forall|k: u64| k < 64 implies #[trigger] bit64(result_hi@[i as int], k) == (k < j
                    + 1 && m[k as int][i as int] != -1) by {
                    lemma_set_bit_u64(old_hi, j as u64, k);
                }
            }
        }
    }
    (result_lo, result_hi)
}

/// `(lo, hi)` holds the first `n` trits of the first `count` arrays of `m`,
/// array `j` in lane `j` of 128 bit words; the other lanes are all zero.
pub open spec fn interlaced_prefix_u128(m: Seq<Seq<i8>>, count: nat, n: nat, lo: Seq<u128>, hi: Seq<u128>) -> bool {
    &&& lo.len() == n
    &&& hi.len() == n
    &&& forall|i: int, j: u128|
        0 <= i < n && j < 128 ==> #[trigger] bit128(lo[i], j) == (j < count && m[j as int][i] != 1)
    &&& forall|i: int, j: u128|
        0 <= i < n && j < 128 ==> #[trigger] bit128(hi[i], j) == (j < count && m[j as int][i] != -1)
}

/// Interlaces the first `trits_count` trits of the first `trinaries_count`
/// arrays of `trinaries` into 128 bit words, array `j` in lane `j`.
pub fn interlace_u128(trinaries: &[Vec<i8>], trinaries_count: usize, trits_count: usize) -> (r: (
    Vec<u128>,
    Vec<u128>,
))
    requires
        interlaceable_prefix(
            trinaries@.map_values(|v: Vec<i8>| v@),
            trinaries_count as nat,
            trits_count as nat,
            128,
        ),
    ensures
        interlaced_prefix_u128(
            trinaries@.map_values(|v: Vec<i8>| v@),
            trinaries_count as nat,
            trits_count as nat,
            r.0@,
            r.1@,
        ),
{
    let ghost m = trinaries@.map_values(|v: Vec<i8>| v@);
    let mut result_lo: Vec<u128> = vec![0; trits_count];
    let mut result_hi: Vec<u128> = vec![0; trits_count];

    for i in 0..trits_count
        invariant
            m == trinaries@.map_values(|v: Vec<i8>| v@),
            interlaceable_prefix(m, trinaries_count as nat, trits_count as nat, 128),
            result_lo@.len() == trits_count,
            result_hi@.len() == trits_count,
            forall|ii: int, k: u128|
                0 <= ii < i && k < 128 ==> #[trigger] bit128(result_lo@[ii], k) == (k < trinaries_count
                    && m[k as int][ii] != 1),
            forall|ii: int, k: u128|
                0 <= ii < i && k < 128 ==> #[trigger] bit128(result_hi@[ii], k) == (k < trinaries_count
                    && m[k as int][ii] != -1),
            forall|ii: int| i <= ii < trits_count ==> result_lo@[ii] == 0 && result_hi@[ii] == 0,
    {
        proof {
            assert forall|k: u128| k < 128 implies !#[trigger] bit128(0u128, k) by {
                lemma_zero_bit_u128(k);
            }
        }
        for j in 0..trinaries_count
            invariant
                m == trinaries@.map_values(|v: Vec<i8>| v@),
                interlaceable_prefix(m, trinaries_count as nat, trits_count as nat, 128),
                0 <= i < trits_count,
                result_lo@.len() == trits_count,
                result_hi@.len() == trits_count,
                forall|ii: int, k: u128|
                    0 <= ii < i && k < 128 ==> #[trigger] bit128(result_lo@[ii], k) == (k
                        < trinaries_count && m[k as int][ii] != 1),
                forall|ii: int, k: u128|
                    0 <= ii < i && k < 128 ==> #[trigger] bit128(result_hi@[ii], k) == (k
                        < trinaries_count && m[k as int][ii] != -1),
                forall|ii: int| i < ii < trits_count ==> result_lo@[ii] == 0 && result_hi@[ii] == 0,
                forall|k: u128|
                    k < 128 ==> #[trigger] bit128(result_lo@[i as int], k) == (k < j && m[k as int][i as int]
                        != 1),
                forall|k: u128|
                    k < 128 ==> #[trigger] bit128(result_hi@[i as int], k) == (k < j && m[k as int][i as int]
                        != -1),
        {
            proof {
                assert(m[j as int].len() >= trits_count);
                assert(is_trit(m[j as int][i as int]));
            }
            let t = trinaries[j][i];
            let ghost old_lo = result_lo@[i as int];
            let ghost old_hi = result_hi@[i as int];
            let mask: u128 = 1u128 << (j as u128);
            if t == 0 {
                result_lo[i] = result_lo[i] | mask;
                result_hi[i] = result_hi[i] | mask;
            } else if t == 1 {
                result_hi[i] = result_hi[i] | mask;
            } else {
                result_lo[i] = result_lo[i] | mask;
            }
            proof {
                assert forall|k: u128| k < 128 implies #[trigger] bit128(result_lo@[i as int], k) == (k < j
                    + 1 && m[k as int][i as int] != 1) by {
                    lemma_set_bit_u128(old_lo, j as u128, k);
                }
                assert forall|k: u128| k < 128 implies #[trigger] bit128(result_hi@[i as int], k) == (k < j
                    + 1 && m[k as int][i as int] != -1) by {
                    lemma_set_bit_u128(old_hi, j as u128, k);
                }
            }
        }
    }
    (result_lo, result_hi)
}

/// `(lo, hi)` holds the first `n` trits of the first `count` arrays of `m`,
/// array `j` in lane `j` of 64 bit words; the other lanes are all zero.
pub open spec fn interlaced_prefix_i64(m: Seq<Seq<i8>>, count: nat, n: nat, lo: Seq<i64>, hi: Seq<i64>) -> bool {
    &&& lo.len() == n
    &&& hi.len() == n
    &&& forall|i: int, j: u64|
        0 <= i < n && j < 64 ==> #[trigger] bit_i64(lo[i], j) == (j < count && m[j as int][i] != 1)
    &&& forall|i: int, j: u64|
        0 <= i < n && j < 64 ==> #[trigger] bit_i64(hi[i], j) == (j < count && m[j as int][i] != -1)
}

/// Interlaces the first `trits_count` trits of the first `trinaries_count`
/// arrays of `trinaries` into 64 bit words, array `j` in lane `j`.
pub fn interlace_i64(trinaries: &[Vec<i8>], trinaries_count: usize, trits_count: usize) -> (r: (
    Vec<i64>,
    Vec<i64>,
))
    requires
        interlaceable_prefix(
            trinaries@.map_values(|v: Vec<i8>| v@),
            trinaries_count as nat,
            trits_count as nat,
            64,
        ),
    ensures
        interlaced_prefix_i64(
            trinaries@.map_values(|v: Vec<i8>| v@),
            trinaries_count as nat,
            trits_count as nat,
            r.0@,
            r.1@,
        ),
{
    let ghost m = trinaries@.map_values(|v: Vec<i8>| v@);
    let mut result_lo: Vec<i64> = vec![0; trits_count];
    let mut result_hi: Vec<i64> = vec![0; trits_count];

    for i in 0..trits_count
        invariant
            m == trinaries@.map_values(|v: Vec<i8>| v@),
            interlaceable_prefix(m, trinaries_count as nat, trits_count as nat, 64),
            result_lo@.len() == trits_count,
            result_hi@.len() == trits_count,
            forall|ii: int, k: u64|
                0 <= ii < i && k < 64 ==> #[trigger] bit_i64(result_lo@[ii], k) == (k < trinaries_count
                    && m[k as int][ii] != 1),
            forall|ii: int, k: u64|
                0 <= ii < i && k < 64 ==> #[trigger] bit_i64(result_hi@[ii], k) == (k < trinaries_count
                    && m[k as int][ii] != -1),
            forall|ii: int| i <= ii < trits_count ==> result_lo@[ii] == 0 && result_hi@[ii] == 0,
    {
        proof {
            assert forall|k: u64| k < 64 implies !#[trigger] bit_i64(0i64, k) by {
                lemma_zero_bit_i64(k);
            }
        }
        for j in 0..trinaries_count
            invariant
                m == trinaries@.map_values(|v: Vec<i8>| v@),
                interlaceable_prefix(m, trinaries_count as nat, trits_count as nat, 64),
                0 <= i < trits_count,
                result_lo@.len() == trits_count,
                result_hi@.len() == trits_count,
                forall|ii: int, k: u64|
                    0 <= ii < i && k < 64 ==> #[trigger] bit_i64(result_lo@[ii], k) == (k
                        < trinaries_count && m[k as int][ii] != 1),
                forall|ii: int, k: u64|
                    0 <= ii < i && k < 64 ==> #[trigger] bit_i64(result_hi@[ii], k) == (k
                        < trinaries_count && m[k as int][ii] != -1),
                forall|ii: int| i < ii < trits_count ==> result_lo@[ii] == 0 && result_hi@[ii] == 0,
                forall|k: u64|
                    k < 64 ==> #[trigger] bit_i64(result_lo@[i as int], k) == (k < j && m[k as int][i as int]
                        != 1),
                forall|k: u64|
                    k < 64 ==> #[trigger] bit_i64(result_hi@[i as int], k) == (k < j && m[k as int][i as int]
                        != -1),
        {
            proof {
                assert(m[j as int].len() >= trits_count);
                assert(is_trit(m[j as int][i as int]));
            }
            let t = trinaries[j][i];
            let ghost old_lo = result_lo@[i as int];
            let ghost old_hi = result_hi@[i as int];
            let mask: i64 = 1i64 << (j as u64);
            if t == 0 {
                result_lo[i] = result_lo[i] | mask;
                result_hi[i] = result_hi[i] | mask;
            } else if t == 1 {
                result_hi[i] = result_hi[i] | mask;
            } else {
                result_lo[i] = result_lo[i] | mask;
            }
            proof {
                assert forall|k: u64| k < 64 implies #[trigger] bit_i64(result_lo@[i as int], k) == (k < j
                    + 1 && m[k as int][i as int] != 1) by {
                    lemma_set_bit_i64(old_lo, j as u64, k);
                }
                assert forall|k: u64| k < 64 implies #[trigger] bit_i64(result_hi@[i as int], k) == (k < j
                    + 1 && m[k as int][i as int] != -1) by {
                    lemma_set_bit_i64(old_hi, j as u64, k);
                }
            }
        }
    }
    (result_lo, result_hi)
}

proof fn lemma_set_bit_i64(x: i64, j: u64, k: u64)
    by (bit_vector)
    requires
        j < 64,
        k < 64,
    ensures
        bit_i64(x | (1i64 << j), k) == (bit_i64(x, k) || k == j),
{
}

proof fn lemma_zero_bit_i64(k: u64)
    by (bit_vector)
    requires
        k < 64,
    ensures
        !bit_i64(0i64, k),
{
}

} // verus!
