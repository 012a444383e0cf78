//! Binary-encoded trinary: a trit is a pair of bits `(lo, hi)`; -1 is
//! `(1, 0)`, 1 is `(0, 1)` and 0 is `(1, 1)`. A word holds one such bit per
//! lane, so a pair of words holds one trit for each of its lanes.
use vstd::prelude::*;
use crate::curl_spec::{
    is_trit, truth, curl_index, curl_round, curl_rounds, curl_transform, curl_absorb,
    lemma_curl_rounds_snoc,
};

verus! {

broadcast use crate::curl_spec::lemma_curl_index_bounds;

/// Bit `j` of a 64 bit word.
pub open spec fn bit64(x: u64, j: u64) -> bool {
    (x >> j) & 1u64 == 1u64
}

/// Bit `j` of a 128 bit word.
pub open spec fn bit128(x: u128, j: u128) -> bool {
    (x >> j) & 1u128 == 1u128
}

/// Bit `j` of a signed 64 bit word.
pub open spec fn bit_i64(x: i64, j: u64) -> bool {
    (x >> j) & 1i64 == 1i64
}

/// The trit that a pair of bits `(lo, hi)` stands for; `(0, 0)` reads as 0.
pub open spec fn decode(p: (bool, bool)) -> i8 {
    if p.0 && !p.1 {
        -1i8
    } else if !p.0 && p.1 {
        1i8
    } else {
        0i8
    }
}

/// The pair of bits that encodes the trit `t`.
pub open spec fn encode(t: i8) -> (bool, bool) {
    (t != 1, t != -1)
}

/// A pair of bits that encodes a trit, that is, not `(0, 0)`.
pub open spec fn valid(p: (bool, bool)) -> bool {
    p.0 || p.1
}

/// The Curl S-box on encoded trits: the `lo` bit of the result.
pub open spec fn cell_lo(a: (bool, bool), b: (bool, bool)) -> bool {
    !((a.1 != b.0) && a.0)
}

/// The Curl S-box on encoded trits: the `hi` bit of the result.
pub open spec fn cell_hi(a: (bool, bool), b: (bool, bool)) -> bool {
    (a.0 != b.1) || (a.1 != b.0)
}

/// The Curl S-box on encoded trits.
pub open spec fn cell(a: (bool, bool), b: (bool, bool)) -> (bool, bool) {
    (cell_lo(a, b), cell_hi(a, b))
}

/// Decoding every pair of a lane.
pub open spec fn decode_lane(s: Seq<(bool, bool)>) -> Seq<i8> {
    Seq::new(s.len(), |i: int| decode(s[i]))
}

/// Encoding every trit of a sequence.
pub open spec fn encode_lane(s: Seq<i8>) -> Seq<(bool, bool)> {
    Seq::new(s.len(), |i: int| encode(s[i]))
}

/// The first 729 pairs of a lane, those that Curl reads, are valid.
pub open spec fn lane_valid(s: Seq<(bool, bool)>) -> bool {
    forall|i: int| 0 <= i < 729 && i < s.len() ==> valid(#[trigger] s[i])
}

/// One round of Curl on an encoded lane.
pub open spec fn lane_round(s: Seq<(bool, bool)>, step: int) -> Seq<(bool, bool)> {
    Seq::new(s.len(), |k: int| cell(s[curl_index(step + k)], s[curl_index(step + k + 1)]))
}

/// `n` rounds of Curl on an encoded lane.
pub open spec fn lane_rounds(s: Seq<(bool, bool)>, step: int, n: nat) -> Seq<(bool, bool)>
    decreases n,
{
    if n == 0 {
        s
    } else {
        lane_rounds(lane_round(s, step), step + s.len(), (n - 1) as nat)
    }
}

/// The encoded S-box computes the Curl S-box on every pair of encoded trits,
/// and its result is always a valid encoding.
pub proof fn lemma_cell_is_truth(a: (bool, bool), b: (bool, bool))
    requires
        valid(a),
        valid(b),
    ensures
        decode(cell(a, b)) == truth(decode(a), decode(b)),
        valid(cell(a, b)),
{
}

/// Decoding and encoding a trit gives it back; an encoding is valid.
pub proof fn lemma_encode_decode(t: i8)
    requires
        is_trit(t),
    ensures
        decode(encode(t)) == t,
        valid(encode(t)),
{
}

/// One round of Curl on a valid lane decodes to one round of Curl on its
/// trits, and yields a valid lane.
pub proof fn lemma_lane_round(s: Seq<(bool, bool)>, step: int)
    requires
        s.len() >= 729,
        lane_valid(s),
    ensures
        decode_lane(lane_round(s, step)) == curl_round(decode_lane(s), step),
        lane_valid(lane_round(s, step)),
        forall|i: int| 0 <= i < s.len() ==> valid(#[trigger] lane_round(s, step)[i]),
{
    let r = lane_round(s, step);
    assert forall|k: int| 0 <= k < s.len() implies decode(#[trigger] r[k]) == truth(
        decode_lane(s)[curl_index(step + k)],
        decode_lane(s)[curl_index(step + k + 1)],
    ) && valid(r[k]) by {
        lemma_cell_is_truth(s[curl_index(step + k)], s[curl_index(step + k + 1)]);
    }
    assert(decode_lane(r) =~= curl_round(decode_lane(s), step));
}

/// `n` rounds of Curl on a valid lane decode to `n` rounds of Curl on its
/// trits.
pub proof fn lemma_lane_rounds(s: Seq<(bool, bool)>, step: int, n: nat)
    requires
        s.len() >= 729,
        lane_valid(s),
    ensures
        decode_lane(lane_rounds(s, step, n)) == curl_rounds(decode_lane(s), step, n),
        lane_rounds(s, step, n).len() == s.len(),
        n > 0 ==> forall|i: int| 0 <= i < s.len() ==> valid(#[trigger] lane_rounds(s, step, n)[i]),
    decreases n,
{
    if n > 0 {
        lemma_lane_round(s, step);
        lemma_lane_rounds(lane_round(s, step), step + s.len(), (n - 1) as nat);
    }
}

// ------------------------------------------------------------------
// Words of type u64
// ------------------------------------------------------------------

/// Bit `j` of every word pair of a u64 state: lane `j`.
pub open spec fn lane_u64(lo: Seq<u64>, hi: Seq<u64>, j: u64) -> Seq<(bool, bool)> {
    Seq::new(lo.len(), |i: int| (bit64(lo[i], j), bit64(hi[i], j)))
}

/// The `lo` word of the encoded S-box on u64 words.
pub open spec fn word_lo_u64(a_lo: u64, a_hi: u64, b_lo: u64, b_hi: u64) -> u64 {
    !((a_hi ^ b_lo) & a_lo)
}

/// The `hi` word of the encoded S-box on u64 words.
pub open spec fn word_hi_u64(a_lo: u64, a_hi: u64, b_lo: u64, b_hi: u64) -> u64 {
    (a_lo ^ b_hi) | (a_hi ^ b_lo)
}

/// One round of Curl on the `lo` words of a u64 state.
pub open spec fn round_lo_u64(lo: Seq<u64>, hi: Seq<u64>, step: int) -> Seq<u64> {
    Seq::new(
        lo.len(),
        |k: int|
            word_lo_u64(
                lo[curl_index(step + k)],
                hi[curl_index(step + k)],
                lo[curl_index(step + k + 1)],
                hi[curl_index(step + k + 1)],
            ),
    )
}

/// One round of Curl on the `hi` words of a u64 state.
pub open spec fn round_hi_u64(lo: Seq<u64>, hi: Seq<u64>, step: int) -> Seq<u64> {
    Seq::new(
        lo.len(),
        |k: int|
            word_hi_u64(
                lo[curl_index(step + k)],
                hi[curl_index(step + k)],
                lo[curl_index(step + k + 1)],
                hi[curl_index(step + k + 1)],
            ),
    )
}

/// `n` rounds of Curl on a u64 state `(lo, hi)`.
pub open spec fn rounds_u64(lo: Seq<u64>, hi: Seq<u64>, step: int, n: nat) -> (Seq<u64>, Seq<u64>)
    decreases n,
{
    if n == 0 {
        (lo, hi)
    } else {
        rounds_u64(
            round_lo_u64(lo, hi, step),
            round_hi_u64(lo, hi, step),
            step + lo.len(),
            (n - 1) as nat,
        )
    }
}

/// Bit `j` of the encoded S-box on u64 words is the encoded S-box on bit `j`.
pub proof fn lemma_word_cell_u64(a_lo: u64, a_hi: u64, b_lo: u64, b_hi: u64, j: u64)
    by (bit_vector)
    requires
        j < 64,
    ensures
        bit64(word_lo_u64(a_lo, a_hi, b_lo, b_hi), j) == !((bit64(a_hi, j) != bit64(b_lo, j)) && bit64(a_lo, j)),
        bit64(word_hi_u64(a_lo, a_hi, b_lo, b_hi), j) == ((bit64(a_lo, j) != bit64(b_hi, j)) || (bit64(a_hi, j) != bit64(b_lo, j))),
{
}

/// Lane `j` of a round on u64 words is a round on lane `j`.
pub proof fn lemma_lane_round_u64(lo: Seq<u64>, hi: Seq<u64>, step: int, j: u64)
    requires
        lo.len() == hi.len(),
        lo.len() >= 729,
        j < 64,
    ensures
        lane_u64(round_lo_u64(lo, hi, step), round_hi_u64(lo, hi, step), j)
            == lane_round(lane_u64(lo, hi, j), step),
{
    let l = lane_u64(round_lo_u64(lo, hi, step), round_hi_u64(lo, hi, step), j);
    let r = lane_round(lane_u64(lo, hi, j), step);
    assert forall|k: int| 0 <= k < lo.len() implies #[trigger] l[k] == r[k] by {
        let x = curl_index(step + k);
        let y = curl_index(step + k + 1);
        lemma_word_cell_u64(lo[x], hi[x], lo[y], hi[y], j);
    }
    assert(l =~= r);
}

/// Lane `j` of `n` rounds on u64 words is `n` rounds on lane `j`.
pub proof fn lemma_lane_rounds_u64(lo: Seq<u64>, hi: Seq<u64>, step: int, n: nat, j: u64)
    requires
        lo.len() == hi.len(),
        lo.len() >= 729,
        j < 64,
    ensures
        lane_u64(rounds_u64(lo, hi, step, n).0, rounds_u64(lo, hi, step, n).1, j)
            == lane_rounds(lane_u64(lo, hi, j), step, n),
        rounds_u64(lo, hi, step, n).0.len() == lo.len(),
        rounds_u64(lo, hi, step, n).1.len() == lo.len(),
    decreases n,
{
    if n > 0 {
        lemma_lane_round_u64(lo, hi, step, j);
        lemma_lane_rounds_u64(
            round_lo_u64(lo, hi, step),
            round_hi_u64(lo, hi, step),
            step + lo.len(),
            (n - 1) as nat,
            j,
        );
    }
}

/// Running `n + 1` rounds on u64 words is running `n` rounds, then one more.
pub proof fn lemma_rounds_snoc_u64(lo: Seq<u64>, hi: Seq<u64>, step: int, n: nat)
    requires
        lo.len() == hi.len(),
    ensures
        rounds_u64(lo, hi, step, n).0.len() == lo.len(),
        rounds_u64(lo, hi, step, n).1.len() == lo.len(),
        rounds_u64(lo, hi, step, n + 1) == (
            round_lo_u64(rounds_u64(lo, hi, step, n).0, rounds_u64(lo, hi, step, n).1, step + n * lo.len()),
            round_hi_u64(rounds_u64(lo, hi, step, n).0, rounds_u64(lo, hi, step, n).1, step + n * lo.len()),
        ),
    decreases n,
{
    let tl = round_lo_u64(lo, hi, step);
    let th = round_hi_u64(lo, hi, step);
    if n > 0 {
        lemma_rounds_snoc_u64(tl, th, step + lo.len(), (n - 1) as nat);
        assert(step + lo.len() + (n - 1) * lo.len() == step + n * lo.len()) by (nonlinear_arith);
        assert(rounds_u64(lo, hi, step, n) == rounds_u64(tl, th, step + lo.len(), (n - 1) as nat));
        assert(rounds_u64(lo, hi, step, n + 1) == rounds_u64(tl, th, step + lo.len(), n));
    } else {
        assert(rounds_u64(tl, th, step + lo.len(), 0) == (tl, th));
        assert(rounds_u64(lo, hi, step, 1) == rounds_u64(tl, th, step + lo.len(), 0));
        assert(n * lo.len() == 0);
    }
}


// ------------------------------------------------------------------
// Words of type u128
// ------------------------------------------------------------------

/// Bit `j` of every word pair of a u128 state: lane `j`.
pub open spec fn lane_u128(lo: Seq<u128>, hi: Seq<u128>, j: u128) -> Seq<(bool, bool)> {
    Seq::new(lo.len(), |i: int| (bit128(lo[i], j), bit128(hi[i], j)))
}

/// The `lo` word of the encoded S-box on u128 words.
pub open spec fn word_lo_u128(a_lo: u128, a_hi: u128, b_lo: u128, b_hi: u128) -> u128 {
    !((a_hi ^ b_lo) & a_lo)
}

/// The `hi` word of the encoded S-box on u128 words.
pub open spec fn word_hi_u128(a_lo: u128, a_hi: u128, b_lo: u128, b_hi: u128) -> u128 {
    (a_lo ^ b_hi) | (a_hi ^ b_lo)
}

/// One round of Curl on the `lo` words of a u128 state.
pub open spec fn round_lo_u128(lo: Seq<u128>, hi: Seq<u128>, step: int) -> Seq<u128> {
    Seq::new(
        lo.len(),
        |k: int|
            word_lo_u128(
                lo[curl_index(step + k)],
                hi[curl_index(step + k)],
                lo[curl_index(step + k + 1)],
                hi[curl_index(step + k + 1)],
            ),
    )
}

/// One round of Curl on the `hi` words of a u128 state.
pub open spec fn round_hi_u128(lo: Seq<u128>, hi: Seq<u128>, step: int) -> Seq<u128> {
    Seq::new(
        lo.len(),
        |k: int|
            word_hi_u128(
                lo[curl_index(step + k)],
                hi[curl_index(step + k)],
                lo[curl_index(step + k + 1)],
                hi[curl_index(step + k + 1)],
            ),
    )
}

/// `n` rounds of Curl on a u128 state `(lo, hi)`.
pub open spec fn rounds_u128(lo: Seq<u128>, hi: Seq<u128>, step: int, n: nat) -> (Seq<u128>, Seq<u128>)
    decreases n,
{
    if n == 0 {
        (lo, hi)
    } else {
        rounds_u128(
            round_lo_u128(lo, hi, step),
            round_hi_u128(lo, hi, step),
            step + lo.len(),
            (n - 1) as nat,
        )
    }
}

/// Bit `j` of the encoded S-box on u128 words is the encoded S-box on bit `j`.
pub proof fn lemma_word_cell_u128(a_lo: u128, a_hi: u128, b_lo: u128, b_hi: u128, j: u128)
    by (bit_vector)
    requires
        j < 128,
    ensures
        bit128(word_lo_u128(a_lo, a_hi, b_lo, b_hi), j) == !((bit128(a_hi, j) != bit128(b_lo, j)) && bit128(a_lo, j)),
        bit128(word_hi_u128(a_lo, a_hi, b_lo, b_hi), j) == ((bit128(a_lo, j) != bit128(b_hi, j)) || (bit128(a_hi, j) != bit128(b_lo, j))),
{
}

/// Lane `j` of a round on u128 words is a round on lane `j`.
pub proof fn lemma_lane_round_u128(lo: Seq<u128>, hi: Seq<u128>, step: int, j: u128)
    requires
        lo.len() == hi.len(),
        lo.len() >= 729,
        j < 128,
    ensures
        lane_u128(round_lo_u128(lo, hi, step), round_hi_u128(lo, hi, step), j)
            == lane_round(lane_u128(lo, hi, j), step),
{
    let l = lane_u128(round_lo_u128(lo, hi, step), round_hi_u128(lo, hi, step), j);
    let r = lane_round(lane_u128(lo, hi, j), step);
    assert forall|k: int| 0 <= k < lo.len() implies #[trigger] l[k] == r[k] by {
        let x = curl_index(step + k);
        let y = curl_index(step + k + 1);
        lemma_word_cell_u128(lo[x], hi[x], lo[y], hi[y], j);
    }
    assert(l =~= r);
}

/// Lane `j` of `n` rounds on u128 words is `n` rounds on lane `j`.
pub proof fn lemma_lane_rounds_u128(lo: Seq<u128>, hi: Seq<u128>, step: int, n: nat, j: u128)
    requires
        lo.len() == hi.len(),
        lo.len() >= 729,
        j < 128,
    ensures
        lane_u128(rounds_u128(lo, hi, step, n).0, rounds_u128(lo, hi, step, n).1, j)
            == lane_rounds(lane_u128(lo, hi, j), step, n),
        rounds_u128(lo, hi, step, n).0.len() == lo.len(),
        rounds_u128(lo, hi, step, n).1.len() == lo.len(),
    decreases n,
{
    if n > 0 {
        lemma_lane_round_u128(lo, hi, step, j);
        lemma_lane_rounds_u128(
            round_lo_u128(lo, hi, step),
            round_hi_u128(lo, hi, step),
            step + lo.len(),
            (n - 1) as nat,
            j,
        );
    }
}

/// Running `n + 1` rounds on u128 words is running `n` rounds, then one more.
pub proof fn lemma_rounds_snoc_u128(lo: Seq<u128>, hi: Seq<u128>, step: int, n: nat)
    requires
        lo.len() == hi.len(),
    ensures
        rounds_u128(lo, hi, step, n).0.len() == lo.len(),
        rounds_u128(lo, hi, step, n).1.len() == lo.len(),
        rounds_u128(lo, hi, step, n + 1) == (
            round_lo_u128(rounds_u128(lo, hi, step, n).0, rounds_u128(lo, hi, step, n).1, step + n * lo.len()),
            round_hi_u128(rounds_u128(lo, hi, step, n).0, rounds_u128(lo, hi, step, n).1, step + n * lo.len()),
        ),
    decreases n,
{
    let tl = round_lo_u128(lo, hi, step);
    let th = round_hi_u128(lo, hi, step);
    if n > 0 {
        lemma_rounds_snoc_u128(tl, th, step + lo.len(), (n - 1) as nat);
        assert(step + lo.len() + (n - 1) * lo.len() == step + n * lo.len()) by (nonlinear_arith);
        assert(rounds_u128(lo, hi, step, n) == rounds_u128(tl, th, step + lo.len(), (n - 1) as nat));
        assert(rounds_u128(lo, hi, step, n + 1) == rounds_u128(tl, th, step + lo.len(), n));
    } else {
        assert(rounds_u128(tl, th, step + lo.len(), 0) == (tl, th));
        assert(rounds_u128(lo, hi, step, 1) == rounds_u128(tl, th, step + lo.len(), 0));
        assert(n * lo.len() == 0);
    }
}

// ------------------------------------------------------------------
// Words of type i64
// ------------------------------------------------------------------

/// Bit `j` of every word pair of an i64 state: lane `j`.
pub open spec fn lane_i64(lo: Seq<i64>, hi: Seq<i64>, j: u64) -> Seq<(bool, bool)> {
    Seq::new(lo.len(), |i: int| (bit_i64(lo[i], j), bit_i64(hi[i], j)))
}

/// The `lo` word of the encoded S-box on i64 words.
pub open spec fn word_lo_i64(a_lo: i64, a_hi: i64, b_lo: i64, b_hi: i64) -> i64 {
    !((a_hi ^ b_lo) & a_lo)
}

/// The `hi` word of the encoded S-box on i64 words.
pub open spec fn word_hi_i64(a_lo: i64, a_hi: i64, b_lo: i64, b_hi: i64) -> i64 {
    (a_lo ^ b_hi) | (a_hi ^ b_lo)
}

/// One round of Curl on the `lo` words of an i64 state.
pub open spec fn round_lo_i64(lo: Seq<i64>, hi: Seq<i64>, step: int) -> Seq<i64> {
    Seq::new(
        lo.len(),
        |k: int|
            word_lo_i64(
                lo[curl_index(step + k)],
                hi[curl_index(step + k)],
                lo[curl_index(step + k + 1)],
                hi[curl_index(step + k + 1)],
            ),
    )
}

/// One round of Curl on the `hi` words of an i64 state.
pub open spec fn round_hi_i64(lo: Seq<i64>, hi: Seq<i64>, step: int) -> Seq<i64> {
    Seq::new(
        lo.len(),
        |k: int|
            word_hi_i64(
                lo[curl_index(step + k)],
                hi[curl_index(step + k)],
                lo[curl_index(step + k + 1)],
                hi[curl_index(step + k + 1)],
            ),
    )
}

/// `n` rounds of Curl on an i64 state `(lo, hi)`.
pub open spec fn rounds_i64(lo: Seq<i64>, hi: Seq<i64>, step: int, n: nat) -> (Seq<i64>, Seq<i64>)
    decreases n,
{
    if n == 0 {
        (lo, hi)
    } else {
        rounds_i64(
            round_lo_i64(lo, hi, step),
            round_hi_i64(lo, hi, step),
            step + lo.len(),
            (n - 1) as nat,
        )
    }
}

/// Bit `j` of the encoded S-box on i64 words is the encoded S-box on bit `j`.
pub proof fn lemma_word_cell_i64(a_lo: i64, a_hi: i64, b_lo: i64, b_hi: i64, j: u64)
    by (bit_vector)
    requires
        j < 64,
    ensures
        bit_i64(word_lo_i64(a_lo, a_hi, b_lo, b_hi), j) == !((bit_i64(a_hi, j) != bit_i64(b_lo, j)) && bit_i64(a_lo, j)),
        bit_i64(word_hi_i64(a_lo, a_hi, b_lo, b_hi), j) == ((bit_i64(a_lo, j) != bit_i64(b_hi, j)) || (bit_i64(a_hi, j) != bit_i64(b_lo, j))),
{
}

/// Lane `j` of a round on i64 words is a round on lane `j`.
pub proof fn lemma_lane_round_i64(lo: Seq<i64>, hi: Seq<i64>, step: int, j: u64)
    requires
        lo.len() == hi.len(),
        lo.len() >= 729,
        j < 64,
    ensures
        lane_i64(round_lo_i64(lo, hi, step), round_hi_i64(lo, hi, step), j)
            == lane_round(lane_i64(lo, hi, j), step),
{
    let l = lane_i64(round_lo_i64(lo, hi, step), round_hi_i64(lo, hi, step), j);
    let r = lane_round(lane_i64(lo, hi, j), step);
    assert forall|k: int| 0 <= k < lo.len() implies #[trigger] l[k] == r[k] by {
        let x = curl_index(step + k);
        let y = curl_index(step + k + 1);
        lemma_word_cell_i64(lo[x], hi[x], lo[y], hi[y], j);
    }
    assert(l =~= r);
}

/// Lane `j` of `n` rounds on i64 words is `n` rounds on lane `j`.
pub proof fn lemma_lane_rounds_i64(lo: Seq<i64>, hi: Seq<i64>, step: int, n: nat, j: u64)
    requires
        lo.len() == hi.len(),
        lo.len() >= 729,
        j < 64,
    ensures
        lane_i64(rounds_i64(lo, hi, step, n).0, rounds_i64(lo, hi, step, n).1, j)
            == lane_rounds(lane_i64(lo, hi, j), step, n),
        rounds_i64(lo, hi, step, n).0.len() == lo.len(),
        rounds_i64(lo, hi, step, n).1.len() == lo.len(),
    decreases n,
{
    if n > 0 {
        lemma_lane_round_i64(lo, hi, step, j);
        lemma_lane_rounds_i64(
            round_lo_i64(lo, hi, step),
            round_hi_i64(lo, hi, step),
            step + lo.len(),
            (n - 1) as nat,
            j,
        );
    }
}

/// Running `n + 1` rounds on i64 words is running `n` rounds, then one more.
pub proof fn lemma_rounds_snoc_i64(lo: Seq<i64>, hi: Seq<i64>, step: int, n: nat)
    requires
        lo.len() == hi.len(),
    ensures
        rounds_i64(lo, hi, step, n).0.len() == lo.len(),
        rounds_i64(lo, hi, step, n).1.len() == lo.len(),
        rounds_i64(lo, hi, step, n + 1) == (
            round_lo_i64(rounds_i64(lo, hi, step, n).0, rounds_i64(lo, hi, step, n).1, step + n * lo.len()),
            round_hi_i64(rounds_i64(lo, hi, step, n).0, rounds_i64(lo, hi, step, n).1, step + n * lo.len()),
        ),
    decreases n,
{
    let tl = round_lo_i64(lo, hi, step);
    let th = round_hi_i64(lo, hi, step);
    if n > 0 {
        lemma_rounds_snoc_i64(tl, th, step + lo.len(), (n - 1) as nat);
        assert(step + lo.len() + (n - 1) * lo.len() == step + n * lo.len()) by (nonlinear_arith);
        assert(rounds_i64(lo, hi, step, n) == rounds_i64(tl, th, step + lo.len(), (n - 1) as nat));
        assert(rounds_i64(lo, hi, step, n + 1) == rounds_i64(tl, th, step + lo.len(), n));
    } else {
        assert(rounds_i64(tl, th, step + lo.len(), 0) == (tl, th));
        assert(rounds_i64(lo, hi, step, 1) == rounds_i64(tl, th, step + lo.len(), 0));
        assert(n * lo.len() == 0);
    }
}



// ------------------------------------------------------------------
// The sponge on words
// ------------------------------------------------------------------

/// Curl can run `num_rounds` rounds on a state of `3 * hash_length` cells
/// without reading past its end: its walk reads cells up to 728.
pub open spec fn transform_ok(hash_length: nat, num_rounds: nat) -> bool {
    num_rounds == 0 || hash_length == 0 || hash_length >= 243
}

/// Every pair of a lane is valid.
pub open spec fn all_valid(s: Seq<(bool, bool)>) -> bool {
    forall|i: int| 0 <= i < s.len() ==> valid(#[trigger] s[i])
}

// ------------------------------------------------------------------
// The sponge on 64 bit words
// ------------------------------------------------------------------

/// The Curl transform: `num_rounds` rounds, the walk starting at cell 0.
pub open spec fn transform_u64(lo: Seq<u64>, hi: Seq<u64>, num_rounds: nat) -> (Seq<u64>, Seq<u64>) {
    rounds_u64(lo, hi, 0, num_rounds)
}

/// The state after absorbing `(tlo, thi)`: chunks of `hash_length` words,
/// the last one possibly shorter, each copied over the start of the state
/// and followed by a transform. An empty input still transforms once.
pub open spec fn absorb_u64(
    lo: Seq<u64>,
    hi: Seq<u64>,
    tlo: Seq<u64>,
    thi: Seq<u64>,
    hash_length: nat,
    num_rounds: nat,
) -> (Seq<u64>, Seq<u64>)
    decreases tlo.len(),
{
    let chunk = if tlo.len() < hash_length {
        tlo.len()
    } else {
        hash_length
    };
    let s = transform_u64(
        tlo.take(chunk as int) + lo.skip(chunk as int),
        thi.take(chunk as int) + hi.skip(chunk as int),
        num_rounds,
    );
    if tlo.len() > chunk && chunk > 0 {
        absorb_u64(
            s.0,
            s.1,
            tlo.skip(chunk as int),
            thi.skip(chunk as int),
            hash_length,
            num_rounds,
        )
    } else {
        s
    }
}

/// The transform on 64 bit words runs, in every lane whose first 729 pairs
/// are valid, the Curl transform on that lane's trits, and leaves it valid.
pub proof fn lemma_transform_lane_u64(lo: Seq<u64>, hi: Seq<u64>, num_rounds: nat, j: u64)
    requires
        lo.len() == hi.len(),
        num_rounds == 0 || lo.len() == 0 || lo.len() >= 729,
        j < 64,
        lane_valid(lane_u64(lo, hi, j)),
    ensures
        transform_u64(lo, hi, num_rounds).0.len() == lo.len(),
        transform_u64(lo, hi, num_rounds).1.len() == lo.len(),
        decode_lane(
            lane_u64(transform_u64(lo, hi, num_rounds).0, transform_u64(lo, hi, num_rounds).1, j),
        ) == curl_transform(decode_lane(lane_u64(lo, hi, j)), num_rounds),
        lane_valid(
            lane_u64(transform_u64(lo, hi, num_rounds).0, transform_u64(lo, hi, num_rounds).1, j),
        ),
{
    let t = transform_u64(lo, hi, num_rounds);
    let d = decode_lane(lane_u64(lo, hi, j));
    lemma_rounds_snoc_u64(lo, hi, 0, num_rounds);
    lemma_curl_rounds_snoc(d, 0, num_rounds);
    if num_rounds == 0 {
    } else if lo.len() == 0 {
        assert(decode_lane(lane_u64(t.0, t.1, j)) =~= curl_transform(d, num_rounds));
    } else {
        lemma_lane_rounds_u64(lo, hi, 0, num_rounds, j);
        lemma_lane_rounds(lane_u64(lo, hi, j), 0, num_rounds);
    }
}

/// The encoded S-box yields a valid encoding whatever pairs it reads.
pub proof fn lemma_cell_valid(a: (bool, bool), b: (bool, bool))
    ensures
        valid(cell(a, b)),
{
}

/// A round of Curl on an encoded lane yields a valid lane, whatever the
/// lane held before.
pub proof fn lemma_lane_round_valid(s: Seq<(bool, bool)>, step: int)
    ensures
        all_valid(lane_round(s, step)),
{
    assert forall|k: int| 0 <= k < lane_round(s, step).len() implies valid(
        #[trigger] lane_round(s, step)[k],
    ) by {
        lemma_cell_valid(s[curl_index(step + k)], s[curl_index(step + k + 1)]);
    }
}

/// The encoded S-box on u64 words sets, in every lane, the `lo` bit or the
/// `hi` bit.
proof fn lemma_word_valid_u64(a_lo: u64, a_hi: u64, b_lo: u64, b_hi: u64)
    by (bit_vector)
    ensures
        word_lo_u64(a_lo, a_hi, b_lo, b_hi) | word_hi_u64(a_lo, a_hi, b_lo, b_hi) == 0xffff_ffff_ffff_ffffu64,
{
}

/// After a transform of at least one round on u64 words, every lane of every
/// cell holds a valid encoding, whatever the state held before.
pub proof fn lemma_transform_valid_u64(lo: Seq<u64>, hi: Seq<u64>, num_rounds: nat)
    requires
        lo.len() == hi.len(),
        num_rounds >= 1,
    ensures
        transform_u64(lo, hi, num_rounds).0.len() == lo.len(),
        transform_u64(lo, hi, num_rounds).1.len() == lo.len(),
        forall|i: int|
            0 <= i < lo.len() ==> #[trigger] transform_u64(lo, hi, num_rounds).0[i] | transform_u64(
                lo,
                hi,
                num_rounds,
            ).1[i] == 0xffff_ffff_ffff_ffffu64,
{
    let n = (num_rounds - 1) as nat;
    lemma_rounds_snoc_u64(lo, hi, 0, n);
    let p = rounds_u64(lo, hi, 0, n);
    let step: int = 0 + (n * lo.len()) as int;
    assert forall|i: int| 0 <= i < lo.len() implies #[trigger] round_lo_u64(p.0, p.1, step)[i]
        | round_hi_u64(p.0, p.1, step)[i] == 0xffff_ffff_ffff_ffffu64 by {
        let x = curl_index(step + i);
        let y = curl_index(step + i + 1);
        lemma_word_valid_u64(p.0[x], p.1[x], p.0[y], p.1[y]);
    }
}

/// Two states whose lane `j` agree still agree on lane `j` after a
/// transform: the transform works on each lane by itself, so the other
/// lanes cannot reach it.
pub proof fn lemma_transform_lane_independent_u64(
    lo1: Seq<u64>,
    hi1: Seq<u64>,
    lo2: Seq<u64>,
    hi2: Seq<u64>,
    num_rounds: nat,
    j: u64,
)
    requires
        lo1.len() == hi1.len(),
        lo2.len() == hi2.len(),
        lo1.len() == lo2.len(),
        num_rounds == 0 || lo1.len() == 0 || lo1.len() >= 729,
        j < 64,
        lane_u64(lo1, hi1, j) == lane_u64(lo2, hi2, j),
    ensures
        lane_u64(transform_u64(lo1, hi1, num_rounds).0, transform_u64(lo1, hi1, num_rounds).1, j)
            == lane_u64(transform_u64(lo2, hi2, num_rounds).0, transform_u64(lo2, hi2, num_rounds).1, j),
{
    lemma_rounds_snoc_u64(lo1, hi1, 0, num_rounds);
    lemma_rounds_snoc_u64(lo2, hi2, 0, num_rounds);
    if lo1.len() == 0 {
        let t1 = transform_u64(lo1, hi1, num_rounds);
        let t2 = transform_u64(lo2, hi2, num_rounds);
        assert(lane_u64(t1.0, t1.1, j) =~= lane_u64(t2.0, t2.1, j));
    } else if num_rounds > 0 {
        lemma_lane_rounds_u64(lo1, hi1, 0, num_rounds, j);
        lemma_lane_rounds_u64(lo2, hi2, 0, num_rounds, j);
    }
}

/// Copying the first `c` pairs of `(tlo, thi)` over a state copies, in every
/// lane, the first `c` trits of that lane.
pub proof fn lemma_splice_lane_u64(
    lo: Seq<u64>,
    hi: Seq<u64>,
    tlo: Seq<u64>,
    thi: Seq<u64>,
    c: int,
    j: u64,
)
    requires
        lo.len() == hi.len(),
        tlo.len() == thi.len(),
        0 <= c <= tlo.len(),
        c <= lo.len(),
    ensures
        lane_u64(tlo.take(c) + lo.skip(c), thi.take(c) + hi.skip(c), j) == lane_u64(
            tlo,
            thi,
            j,
        ).take(c) + lane_u64(lo, hi, j).skip(c),
        decode_lane(lane_u64(tlo.take(c) + lo.skip(c), thi.take(c) + hi.skip(c), j)) == decode_lane(
            lane_u64(tlo, thi, j),
        ).take(c) + decode_lane(lane_u64(lo, hi, j)).skip(c),
        lane_u64(tlo.skip(c), thi.skip(c), j) == lane_u64(tlo, thi, j).skip(c),
        decode_lane(lane_u64(tlo.skip(c), thi.skip(c), j)) == decode_lane(lane_u64(tlo, thi, j)).skip(
            c,
        ),
{
    assert(lane_u64(tlo.take(c) + lo.skip(c), thi.take(c) + hi.skip(c), j) =~= lane_u64(
        tlo,
        thi,
        j,
    ).take(c) + lane_u64(lo, hi, j).skip(c));
    assert(decode_lane(lane_u64(tlo.take(c) + lo.skip(c), thi.take(c) + hi.skip(c), j))
        =~= decode_lane(lane_u64(tlo, thi, j)).take(c) + decode_lane(lane_u64(lo, hi, j)).skip(c));
    assert(lane_u64(tlo.skip(c), thi.skip(c), j) =~= lane_u64(tlo, thi, j).skip(c));
    assert(decode_lane(lane_u64(tlo.skip(c), thi.skip(c), j)) =~= decode_lane(
        lane_u64(tlo, thi, j),
    ).skip(c));
}

/// Absorbing with at least one round leaves every lane of every cell of the
/// state holding a valid encoding, whatever the state and the input held.
pub proof fn lemma_absorb_valid_u64(
    lo: Seq<u64>,
    hi: Seq<u64>,
    tlo: Seq<u64>,
    thi: Seq<u64>,
    hash_length: nat,
    num_rounds: nat,
)
    requires
        lo.len() == hi.len(),
        lo.len() >= hash_length,
        tlo.len() == thi.len(),
        num_rounds >= 1,
    ensures
        absorb_u64(lo, hi, tlo, thi, hash_length, num_rounds).0.len() == lo.len(),
        absorb_u64(lo, hi, tlo, thi, hash_length, num_rounds).1.len() == lo.len(),
        forall|i: int|
            0 <= i < lo.len() ==> #[trigger] absorb_u64(lo, hi, tlo, thi, hash_length, num_rounds).0[i]
                | absorb_u64(lo, hi, tlo, thi, hash_length, num_rounds).1[i] == 0xffff_ffff_ffff_ffffu64,
    decreases tlo.len(),
{
    let chunk = if tlo.len() < hash_length {
        tlo.len()
    } else {
        hash_length
    };
    let c = chunk as int;
    let slo = tlo.take(c) + lo.skip(c);
    let shi = thi.take(c) + hi.skip(c);
    assert(slo.len() == lo.len());
    assert(shi.len() == lo.len());
    lemma_transform_valid_u64(slo, shi, num_rounds);
    let s = transform_u64(slo, shi, num_rounds);
    if tlo.len() > chunk && chunk > 0 {
        lemma_absorb_valid_u64(s.0, s.1, tlo.skip(c), thi.skip(c), hash_length, num_rounds);
    }
}

/// Two sponges whose states agree on lane `j`, absorbing inputs that agree
/// on lane `j`, end with states that agree on lane `j`: what the other lanes
/// hold cannot reach it.
pub proof fn lemma_absorb_lane_independent_u64(
    lo1: Seq<u64>,
    hi1: Seq<u64>,
    lo2: Seq<u64>,
    hi2: Seq<u64>,
    tlo1: Seq<u64>,
    thi1: Seq<u64>,
    tlo2: Seq<u64>,
    thi2: Seq<u64>,
    hash_length: nat,
    num_rounds: nat,
    j: u64,
)
    requires
        lo1.len() == 3 * hash_length,
        hi1.len() == 3 * hash_length,
        lo2.len() == 3 * hash_length,
        hi2.len() == 3 * hash_length,
        tlo1.len() == thi1.len(),
        tlo2.len() == thi2.len(),
        tlo1.len() == tlo2.len(),
        transform_ok(hash_length, num_rounds),
        j < 64,
        lane_u64(lo1, hi1, j) == lane_u64(lo2, hi2, j),
        lane_u64(tlo1, thi1, j) == lane_u64(tlo2, thi2, j),
    ensures
        ({
            let a1 = absorb_u64(lo1, hi1, tlo1, thi1, hash_length, num_rounds);
            let a2 = absorb_u64(lo2, hi2, tlo2, thi2, hash_length, num_rounds);
            lane_u64(a1.0, a1.1, j) == lane_u64(a2.0, a2.1, j)
        }),
    decreases tlo1.len(),
{
    let chunk = if tlo1.len() < hash_length {
        tlo1.len()
    } else {
        hash_length
    };
    let c = chunk as int;
    let slo1 = tlo1.take(c) + lo1.skip(c);
    let shi1 = thi1.take(c) + hi1.skip(c);
    let slo2 = tlo2.take(c) + lo2.skip(c);
    let shi2 = thi2.take(c) + hi2.skip(c);
    lemma_splice_lane_u64(lo1, hi1, tlo1, thi1, c, j);
    lemma_splice_lane_u64(lo2, hi2, tlo2, thi2, c, j);
    lemma_transform_lane_independent_u64(slo1, shi1, slo2, shi2, num_rounds, j);
    if tlo1.len() > chunk && chunk > 0 {
        let s1 = transform_u64(slo1, shi1, num_rounds);
        let s2 = transform_u64(slo2, shi2, num_rounds);
        lemma_rounds_snoc_u64(slo1, shi1, 0, num_rounds);
        lemma_rounds_snoc_u64(slo2, shi2, 0, num_rounds);
        lemma_absorb_lane_independent_u64(
            s1.0,
            s1.1,
            s2.0,
            s2.1,
            tlo1.skip(c),
            thi1.skip(c),
            tlo2.skip(c),
            thi2.skip(c),
            hash_length,
            num_rounds,
            j,
        );
    }
}

/// Absorbing 64 bit words absorbs, in every lane whose state is valid and
/// whose input pairs are all valid, that lane's input trits into that
/// lane's Curl state: the 64 lanes are hashed independently.
pub proof fn lemma_absorb_lane_u64(
    lo: Seq<u64>,
    hi: Seq<u64>,
    tlo: Seq<u64>,
    thi: Seq<u64>,
    hash_length: nat,
    num_rounds: nat,
    j: u64,
)
    requires
        lo.len() == 3 * hash_length,
        hi.len() == 3 * hash_length,
        tlo.len() == thi.len(),
        transform_ok(hash_length, num_rounds),
        hash_length > 0 || tlo.len() == 0,
        j < 64,
        lane_valid(lane_u64(lo, hi, j)),
        all_valid(lane_u64(tlo, thi, j)),
    ensures
        absorb_u64(lo, hi, tlo, thi, hash_length, num_rounds).0.len() == 3 * hash_length,
        absorb_u64(lo, hi, tlo, thi, hash_length, num_rounds).1.len() == 3 * hash_length,
        lane_valid(
            lane_u64(
                absorb_u64(lo, hi, tlo, thi, hash_length, num_rounds).0,
                absorb_u64(lo, hi, tlo, thi, hash_length, num_rounds).1,
                j,
            ),
        ),
        decode_lane(
            lane_u64(
                absorb_u64(lo, hi, tlo, thi, hash_length, num_rounds).0,
                absorb_u64(lo, hi, tlo, thi, hash_length, num_rounds).1,
                j,
            ),
        ) == curl_absorb(
            decode_lane(lane_u64(lo, hi, j)),
            decode_lane(lane_u64(tlo, thi, j)),
            hash_length,
            num_rounds,
        ),
    decreases tlo.len(),
{
    let chunk = if tlo.len() < hash_length {
        tlo.len()
    } else {
        hash_length
    };
    let c = chunk as int;
    let slo = tlo.take(c) + lo.skip(c);
    let shi = thi.take(c) + hi.skip(c);
    lemma_splice_lane_u64(lo, hi, tlo, thi, c, j);
    assert(lane_valid(lane_u64(slo, shi, j))) by {
        assert forall|i: int| 0 <= i < 729 && i < lane_u64(slo, shi, j).len() implies valid(
            #[trigger] lane_u64(slo, shi, j)[i],
        ) by {
            if i < c {
                assert(lane_u64(slo, shi, j)[i] == lane_u64(tlo, thi, j)[i]);
            } else {
                assert(lane_u64(slo, shi, j)[i] == lane_u64(lo, hi, j)[i]);
            }
        }
    }
    lemma_transform_lane_u64(slo, shi, num_rounds, j);
    let s = transform_u64(slo, shi, num_rounds);
    if tlo.len() > chunk && chunk > 0 {
        assert(all_valid(lane_u64(tlo.skip(c), thi.skip(c), j))) by {
            assert forall|i: int| 0 <= i < lane_u64(tlo.skip(c), thi.skip(c), j).len() implies valid(
                #[trigger] lane_u64(tlo.skip(c), thi.skip(c), j)[i],
            ) by {
                assert(lane_u64(tlo.skip(c), thi.skip(c), j)[i] == lane_u64(tlo, thi, j)[i + c]);
            }
        }
        lemma_absorb_lane_u64(s.0, s.1, tlo.skip(c), thi.skip(c), hash_length, num_rounds, j);
    }
}

// ------------------------------------------------------------------
// The sponge on 128 bit words
// ------------------------------------------------------------------

/// The Curl transform: `num_rounds` rounds, the walk starting at cell 0.
pub open spec fn transform_u128(lo: Seq<u128>, hi: Seq<u128>, num_rounds: nat) -> (Seq<u128>, Seq<u128>) {
    rounds_u128(lo, hi, 0, num_rounds)
}

/// The state after absorbing `(tlo, thi)`: chunks of `hash_length` words,
/// the last one possibly shorter, each copied over the start of the state
/// and followed by a transform. An empty input still transforms once.
pub open spec fn absorb_u128(
    lo: Seq<u128>,
    hi: Seq<u128>,
    tlo: Seq<u128>,
    thi: Seq<u128>,
    hash_length: nat,
    num_rounds: nat,
) -> (Seq<u128>, Seq<u128>)
    decreases tlo.len(),
{
    let chunk = if tlo.len() < hash_length {
        tlo.len()
    } else {
        hash_length
    };
    let s = transform_u128(
        tlo.take(chunk as int) + lo.skip(chunk as int),
        thi.take(chunk as int) + hi.skip(chunk as int),
        num_rounds,
    );
    if tlo.len() > chunk && chunk > 0 {
        absorb_u128(
            s.0,
            s.1,
            tlo.skip(chunk as int),
            thi.skip(chunk as int),
            hash_length,
            num_rounds,
        )
    } else {
        s
    }
}

/// The transform on 128 bit words runs, in every lane whose first 729 pairs
/// are valid, the Curl transform on that lane's trits, and leaves it valid.
pub proof fn lemma_transform_lane_u128(lo: Seq<u128>, hi: Seq<u128>, num_rounds: nat, j: u128)
    requires
        lo.len() == hi.len(),
        num_rounds == 0 || lo.len() == 0 || lo.len() >= 729,
        j < 128,
        lane_valid(lane_u128(lo, hi, j)),
    ensures
        transform_u128(lo, hi, num_rounds).0.len() == lo.len(),
        transform_u128(lo, hi, num_rounds).1.len() == lo.len(),
        decode_lane(
            lane_u128(transform_u128(lo, hi, num_rounds).0, transform_u128(lo, hi, num_rounds).1, j),
        ) == curl_transform(decode_lane(lane_u128(lo, hi, j)), num_rounds),
        lane_valid(
            lane_u128(transform_u128(lo, hi, num_rounds).0, transform_u128(lo, hi, num_rounds).1, j),
        ),
{
    let t = transform_u128(lo, hi, num_rounds);
    let d = decode_lane(lane_u128(lo, hi, j));
    lemma_rounds_snoc_u128(lo, hi, 0, num_rounds);
    lemma_curl_rounds_snoc(d, 0, num_rounds);
    if num_rounds == 0 {
    } else if lo.len() == 0 {
        assert(decode_lane(lane_u128(t.0, t.1, j)) =~= curl_transform(d, num_rounds));
    } else {
        lemma_lane_rounds_u128(lo, hi, 0, num_rounds, j);
        lemma_lane_rounds(lane_u128(lo, hi, j), 0, num_rounds);
    }
}

/// Copying the first `c` pairs of `(tlo, thi)` over a state copies, in every
/// lane, the first `c` trits of that lane.
pub proof fn lemma_splice_lane_u128(
    lo: Seq<u128>,
    hi: Seq<u128>,
    tlo: Seq<u128>,
    thi: Seq<u128>,
    c: int,
    j: u128,
)
    requires
        lo.len() == hi.len(),
        tlo.len() == thi.len(),
        0 <= c <= tlo.len(),
        c <= lo.len(),
    ensures
        lane_u128(tlo.take(c) + lo.skip(c), thi.take(c) + hi.skip(c), j) == lane_u128(
            tlo,
            thi,
            j,
        ).take(c) + lane_u128(lo, hi, j).skip(c),
        decode_lane(lane_u128(tlo.take(c) + lo.skip(c), thi.take(c) + hi.skip(c), j)) == decode_lane(
            lane_u128(tlo, thi, j),
        ).take(c) + decode_lane(lane_u128(lo, hi, j)).skip(c),
        lane_u128(tlo.skip(c), thi.skip(c), j) == lane_u128(tlo, thi, j).skip(c),
        decode_lane(lane_u128(tlo.skip(c), thi.skip(c), j)) == decode_lane(lane_u128(tlo, thi, j)).skip(
            c,
        ),
{
    assert(lane_u128(tlo.take(c) + lo.skip(c), thi.take(c) + hi.skip(c), j) =~= lane_u128(
        tlo,
        thi,
        j,
    ).take(c) + lane_u128(lo, hi, j).skip(c));
    assert(decode_lane(lane_u128(tlo.take(c) + lo.skip(c), thi.take(c) + hi.skip(c), j))
        =~= decode_lane(lane_u128(tlo, thi, j)).take(c) + decode_lane(lane_u128(lo, hi, j)).skip(c));
    assert(lane_u128(tlo.skip(c), thi.skip(c), j) =~= lane_u128(tlo, thi, j).skip(c));
    assert(decode_lane(lane_u128(tlo.skip(c), thi.skip(c), j)) =~= decode_lane(
        lane_u128(tlo, thi, j),
    ).skip(c));
}

/// Absorbing 128 bit words absorbs, in every lane whose state is valid and
/// whose input pairs are all valid, that lane's input trits into that
/// lane's Curl state: the 128 lanes are hashed independently.
pub proof fn lemma_absorb_lane_u128(
    lo: Seq<u128>,
    hi: Seq<u128>,
    tlo: Seq<u128>,
    thi: Seq<u128>,
    hash_length: nat,
    num_rounds: nat,
    j: u128,
)
    requires
        lo.len() == 3 * hash_length,
        hi.len() == 3 * hash_length,
        tlo.len() == thi.len(),
        transform_ok(hash_length, num_rounds),
        hash_length > 0 || tlo.len() == 0,
        j < 128,
        lane_valid(lane_u128(lo, hi, j)),
        all_valid(lane_u128(tlo, thi, j)),
    ensures
        absorb_u128(lo, hi, tlo, thi, hash_length, num_rounds).0.len() == 3 * hash_length,
        absorb_u128(lo, hi, tlo, thi, hash_length, num_rounds).1.len() == 3 * hash_length,
        lane_valid(
            lane_u128(
                absorb_u128(lo, hi, tlo, thi, hash_length, num_rounds).0,
                absorb_u128(lo, hi, tlo, thi, hash_length, num_rounds).1,
                j,
            ),
        ),
        decode_lane(
            lane_u128(
                absorb_u128(lo, hi, tlo, thi, hash_length, num_rounds).0,
                absorb_u128(lo, hi, tlo, thi, hash_length, num_rounds).1,
                j,
            ),
        ) == curl_absorb(
            decode_lane(lane_u128(lo, hi, j)),
            decode_lane(lane_u128(tlo, thi, j)),
            hash_length,
            num_rounds,
        ),
    decreases tlo.len(),
{
    let chunk = if tlo.len() < hash_length {
        tlo.len()
    } else {
        hash_length
    };
    let c = chunk as int;
    let slo = tlo.take(c) + lo.skip(c);
    let shi = thi.take(c) + hi.skip(c);
    lemma_splice_lane_u128(lo, hi, tlo, thi, c, j);
    assert(lane_valid(lane_u128(slo, shi, j))) by {
        assert forall|i: int| 0 <= i < 729 && i < lane_u128(slo, shi, j).len() implies valid(
            #[trigger] lane_u128(slo, shi, j)[i],
        ) by {
            if i < c {
                assert(lane_u128(slo, shi, j)[i] == lane_u128(tlo, thi, j)[i]);
            } else {
                assert(lane_u128(slo, shi, j)[i] == lane_u128(lo, hi, j)[i]);
            }
        }
    }
    lemma_transform_lane_u128(slo, shi, num_rounds, j);
    let s = transform_u128(slo, shi, num_rounds);
    if tlo.len() > chunk && chunk > 0 {
        assert(all_valid(lane_u128(tlo.skip(c), thi.skip(c), j))) by {
            assert forall|i: int| 0 <= i < lane_u128(tlo.skip(c), thi.skip(c), j).len() implies valid(
                #[trigger] lane_u128(tlo.skip(c), thi.skip(c), j)[i],
            ) by {
                assert(lane_u128(tlo.skip(c), thi.skip(c), j)[i] == lane_u128(tlo, thi, j)[i + c]);
            }
        }
        lemma_absorb_lane_u128(s.0, s.1, tlo.skip(c), thi.skip(c), hash_length, num_rounds, j);
    }
}

// ------------------------------------------------------------------
// The sponge on signed 64 bit words
// ------------------------------------------------------------------

/// The Curl transform: `num_rounds` rounds, the walk starting at cell 0.
pub open spec fn transform_i64(lo: Seq<i64>, hi: Seq<i64>, num_rounds: nat) -> (Seq<i64>, Seq<i64>) {
    rounds_i64(lo, hi, 0, num_rounds)
}

/// The state after absorbing `(tlo, thi)`: chunks of `hash_length` words,
/// the last one possibly shorter, each copied over the start of the state
/// and followed by a transform. An empty input still transforms once.
pub open spec fn absorb_i64(
    lo: Seq<i64>,
    hi: Seq<i64>,
    tlo: Seq<i64>,
    thi: Seq<i64>,
    hash_length: nat,
    num_rounds: nat,
) -> (Seq<i64>, Seq<i64>)
    decreases tlo.len(),
{
    let chunk = if tlo.len() < hash_length {
        tlo.len()
    } else {
        hash_length
    };
    let s = transform_i64(
        tlo.take(chunk as int) + lo.skip(chunk as int),
        thi.take(chunk as int) + hi.skip(chunk as int),
        num_rounds,
    );
    if tlo.len() > chunk && chunk > 0 {
        absorb_i64(
            s.0,
            s.1,
            tlo.skip(chunk as int),
            thi.skip(chunk as int),
            hash_length,
            num_rounds,
        )
    } else {
        s
    }
}

/// The transform on signed 64 bit words runs, in every lane whose first 729 pairs
/// are valid, the Curl transform on that lane's trits, and leaves it valid.
pub proof fn lemma_transform_lane_i64(lo: Seq<i64>, hi: Seq<i64>, num_rounds: nat, j: u64)
    requires
        lo.len() == hi.len(),
        num_rounds == 0 || lo.len() == 0 || lo.len() >= 729,
        j < 64,
        lane_valid(lane_i64(lo, hi, j)),
    ensures
        transform_i64(lo, hi, num_rounds).0.len() == lo.len(),
        transform_i64(lo, hi, num_rounds).1.len() == lo.len(),
        decode_lane(
            lane_i64(transform_i64(lo, hi, num_rounds).0, transform_i64(lo, hi, num_rounds).1, j),
        ) == curl_transform(decode_lane(lane_i64(lo, hi, j)), num_rounds),
        lane_valid(
            lane_i64(transform_i64(lo, hi, num_rounds).0, transform_i64(lo, hi, num_rounds).1, j),
        ),
{
    let t = transform_i64(lo, hi, num_rounds);
    let d = decode_lane(lane_i64(lo, hi, j));
    lemma_rounds_snoc_i64(lo, hi, 0, num_rounds);
    lemma_curl_rounds_snoc(d, 0, num_rounds);
    if num_rounds == 0 {
    } else if lo.len() == 0 {
        assert(decode_lane(lane_i64(t.0, t.1, j)) =~= curl_transform(d, num_rounds));
    } else {
        lemma_lane_rounds_i64(lo, hi, 0, num_rounds, j);
        lemma_lane_rounds(lane_i64(lo, hi, j), 0, num_rounds);
    }
}

/// Copying the first `c` pairs of `(tlo, thi)` over a state copies, in every
/// lane, the first `c` trits of that lane.
pub proof fn lemma_splice_lane_i64(
    lo: Seq<i64>,
    hi: Seq<i64>,
    tlo: Seq<i64>,
    thi: Seq<i64>,
    c: int,
    j: u64,
)
    requires
        lo.len() == hi.len(),
        tlo.len() == thi.len(),
        0 <= c <= tlo.len(),
        c <= lo.len(),
    ensures
        lane_i64(tlo.take(c) + lo.skip(c), thi.take(c) + hi.skip(c), j) == lane_i64(
            tlo,
            thi,
            j,
        ).take(c) + lane_i64(lo, hi, j).skip(c),
        decode_lane(lane_i64(tlo.take(c) + lo.skip(c), thi.take(c) + hi.skip(c), j)) == decode_lane(
            lane_i64(tlo, thi, j),
        ).take(c) + decode_lane(lane_i64(lo, hi, j)).skip(c),
        lane_i64(tlo.skip(c), thi.skip(c), j) == lane_i64(tlo, thi, j).skip(c),
        decode_lane(lane_i64(tlo.skip(c), thi.skip(c), j)) == decode_lane(lane_i64(tlo, thi, j)).skip(
            c,
        ),
{
    assert(lane_i64(tlo.take(c) + lo.skip(c), thi.take(c) + hi.skip(c), j) =~= lane_i64(
        tlo,
        thi,
        j,
    ).take(c) + lane_i64(lo, hi, j).skip(c));
    assert(decode_lane(lane_i64(tlo.take(c) + lo.skip(c), thi.take(c) + hi.skip(c), j))
        =~= decode_lane(lane_i64(tlo, thi, j)).take(c) + decode_lane(lane_i64(lo, hi, j)).skip(c));
    assert(lane_i64(tlo.skip(c), thi.skip(c), j) =~= lane_i64(tlo, thi, j).skip(c));
    assert(decode_lane(lane_i64(tlo.skip(c), thi.skip(c), j)) =~= decode_lane(
        lane_i64(tlo, thi, j),
    ).skip(c));
}

/// Absorbing signed 64 bit words absorbs, in every lane whose state is valid and
/// whose input pairs are all valid, that lane's input trits into that
/// lane's Curl state: the 64 lanes are hashed independently.
pub proof fn lemma_absorb_lane_i64(
    lo: Seq<i64>,
    hi: Seq<i64>,
    tlo: Seq<i64>,
    thi: Seq<i64>,
    hash_length: nat,
    num_rounds: nat,
    j: u64,
)
    requires
        lo.len() == 3 * hash_length,
        hi.len() == 3 * hash_length,
        tlo.len() == thi.len(),
        transform_ok(hash_length, num_rounds),
        hash_length > 0 || tlo.len() == 0,
        j < 64,
        lane_valid(lane_i64(lo, hi, j)),
        all_valid(lane_i64(tlo, thi, j)),
    ensures
        absorb_i64(lo, hi, tlo, thi, hash_length, num_rounds).0.len() == 3 * hash_length,
        absorb_i64(lo, hi, tlo, thi, hash_length, num_rounds).1.len() == 3 * hash_length,
        lane_valid(
            lane_i64(
                absorb_i64(lo, hi, tlo, thi, hash_length, num_rounds).0,
                absorb_i64(lo, hi, tlo, thi, hash_length, num_rounds).1,
                j,
            ),
        ),
        decode_lane(
            lane_i64(
                absorb_i64(lo, hi, tlo, thi, hash_length, num_rounds).0,
                absorb_i64(lo, hi, tlo, thi, hash_length, num_rounds).1,
                j,
            ),
        ) == curl_absorb(
            decode_lane(lane_i64(lo, hi, j)),
            decode_lane(lane_i64(tlo, thi, j)),
            hash_length,
            num_rounds,
        ),
    decreases tlo.len(),
{
    let chunk = if tlo.len() < hash_length {
        tlo.len()
    } else {
        hash_length
    };
    let c = chunk as int;
    let slo = tlo.take(c) + lo.skip(c);
    let shi = thi.take(c) + hi.skip(c);
    lemma_splice_lane_i64(lo, hi, tlo, thi, c, j);
    assert(lane_valid(lane_i64(slo, shi, j))) by {
        assert forall|i: int| 0 <= i < 729 && i < lane_i64(slo, shi, j).len() implies valid(
            #[trigger] lane_i64(slo, shi, j)[i],
        ) by {
            if i < c {
                assert(lane_i64(slo, shi, j)[i] == lane_i64(tlo, thi, j)[i]);
            } else {
                assert(lane_i64(slo, shi, j)[i] == lane_i64(lo, hi, j)[i]);
            }
        }
    }
    lemma_transform_lane_i64(slo, shi, num_rounds, j);
    let s = transform_i64(slo, shi, num_rounds);
    if tlo.len() > chunk && chunk > 0 {
        assert(all_valid(lane_i64(tlo.skip(c), thi.skip(c), j))) by {
            assert forall|i: int| 0 <= i < lane_i64(tlo.skip(c), thi.skip(c), j).len() implies valid(
                #[trigger] lane_i64(tlo.skip(c), thi.skip(c), j)[i],
            ) by {
                assert(lane_i64(tlo.skip(c), thi.skip(c), j)[i] == lane_i64(tlo, thi, j)[i + c]);
            }
        }
        lemma_absorb_lane_i64(s.0, s.1, tlo.skip(c), thi.skip(c), hash_length, num_rounds, j);
    }
}

} // verus!
