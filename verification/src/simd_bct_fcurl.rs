//! Functional Curl on batches of up to 64 transactions in the lanes of
//! signed 64 bit words, with the inner loop of each round computed four
//! words at a time.
use vstd::prelude::*;
use crate::bct_mux::{interlaceable_prefix, interlaced_prefix_i64, interlace_i64};
use crate::bct_spec::{
    rounds_i64, round_lo_i64, round_hi_i64, lemma_rounds_snoc_i64, transform_i64,
    absorb_i64, lane_i64, decode_lane, encode, lane_valid, all_valid, bit_i64,
    lemma_absorb_lane_i64, lemma_encode_decode,
};
use crate::constants::{
    HASH_LENGTH, STATE_LENGTH, TRANSACTION_TRIT_LENGTH, MAX_BATCH_SIZE_64, HIGH_I64_BITS,
};
use crate::copy::copy_run;
use crate::curl_spec::{
    lemma_curl_index_pairs, lemma_curl_index_period, fcurl_rounds, fcurl_hash,
    zero_trits, is_trit, hashable_transactions,
};
use crate::curl_func_bct_128::lemma_batch_hashable;
use vstd::slice::slice_subrange;

verus! {

broadcast use crate::curl_spec::lemma_curl_index_bounds;

/// Four signed 64 bit words, operated on together.
#[allow(non_camel_case_types)]
pub struct i64x4(pub i64, pub i64, pub i64, pub i64);

impl i64x4 {
    /// The four words of `values` from `offset` on.
    pub fn new(values: &[i64], offset: usize) -> (r: Self)
        requires
            offset + 4 <= values@.len(),
        ensures
            r.0 == values@[offset as int],
            r.1 == values@[offset + 1],
            r.2 == values@[offset + 2],
            r.3 == values@[offset + 3],
    {
        i64x4(values[offset], values[offset + 1], values[offset + 2], values[offset + 3])
    }

    /// The complement of each word.
    pub fn not(&self) -> (r: Self)
        ensures
            r.0 == !self.0,
            r.1 == !self.1,
            r.2 == !self.2,
            r.3 == !self.3,
    {
        i64x4(!self.0, !self.1, !self.2, !self.3)
    }

    /// The exclusive or of each pair of words.
    pub fn xor(&self, right: &Self) -> (r: Self)
        ensures
            r.0 == self.0 ^ right.0,
            r.1 == self.1 ^ right.1,
            r.2 == self.2 ^ right.2,
            r.3 == self.3 ^ right.3,
    {
        i64x4(self.0 ^ right.0, self.1 ^ right.1, self.2 ^ right.2, self.3 ^ right.3)
    }

    /// The and of each pair of words.
    pub fn and(&self, right: &Self) -> (r: Self)
        ensures
            r.0 == self.0 & right.0,
            r.1 == self.1 & right.1,
            r.2 == self.2 & right.2,
            r.3 == self.3 & right.3,
    {
        i64x4(self.0 & right.0, self.1 & right.1, self.2 & right.2, self.3 & right.3)
    }

    /// The or of each pair of words.
    pub fn or(&self, right: &Self) -> (r: Self)
        ensures
            r.0 == self.0 | right.0,
            r.1 == self.1 | right.1,
            r.2 == self.2 | right.2,
            r.3 == self.3 | right.3,
    {
        i64x4(self.0 | right.0, self.1 | right.1, self.2 | right.2, self.3 | right.3)
    }
}

/// The `lo` words that the inner loop of a round leaves: cells 1 to 728 of
/// one round of Curl from `(s2_lo, s2_hi)`, and cell 0 as it was in `s1_lo`.
spec fn inner_round_lo(s2_lo: Seq<i64>, s2_hi: Seq<i64>, s1_lo: Seq<i64>) -> Seq<i64> {
    round_lo_i64(s2_lo, s2_hi, 0).update(0, s1_lo[0])
}

/// The `hi` words that the inner loop of a round leaves: cells 1 to 728 of
/// one round of Curl from `(s2_lo, s2_hi)`, and cell 0 as it was in `s1_hi`.
spec fn inner_round_hi(s2_lo: Seq<i64>, s2_hi: Seq<i64>, s1_hi: Seq<i64>) -> Seq<i64> {
    round_hi_i64(s2_lo, s2_hi, 0).update(0, s1_hi[0])
}

/// Cells 1 to 728 of one round of Curl from `(s2_lo, s2_hi)`, two cells
/// for each step, one word at a time. Its contract is that of
/// `inner_loop_u64x4`: the two loops leave the same words.
#[allow(dead_code)]
fn inner_loop_basic(s2_lo: &Vec<i64>, s2_hi: &Vec<i64>, s1_lo: &mut Vec<i64>, s1_hi: &mut Vec<i64>)
    requires
        s2_lo@.len() == STATE_LENGTH,
        s2_hi@.len() == STATE_LENGTH,
        old(s1_lo)@.len() == STATE_LENGTH,
        old(s1_hi)@.len() == STATE_LENGTH,
    ensures
        final(s1_lo)@ == inner_round_lo(s2_lo@, s2_hi@, old(s1_lo)@),
        final(s1_hi)@ == inner_round_hi(s2_lo@, s2_hi@, old(s1_hi)@),
{
    let ghost rlo = round_lo_i64(s2_lo@, s2_hi@, 0);
    let ghost rhi = round_hi_i64(s2_lo@, s2_hi@, 0);
    let ghost lo0 = s1_lo@[0];
    let ghost hi0 = s1_hi@[0];
    for i in 0..364
        invariant
            s2_lo@.len() == STATE_LENGTH,
            s2_hi@.len() == STATE_LENGTH,
            s1_lo@.len() == STATE_LENGTH,
            s1_hi@.len() == STATE_LENGTH,
            rlo == round_lo_i64(s2_lo@, s2_hi@, 0),
            rhi == round_hi_i64(s2_lo@, s2_hi@, 0),
            s1_lo@[0] == lo0,
            s1_hi@[0] == hi0,
            forall|k: int| 2 * (364 - i as int) + 1 <= k < 729 ==> s1_lo@[k] == rlo[k],
            forall|k: int| 2 * (364 - i as int) + 1 <= k < 729 ==> s1_hi@[k] == rhi[k],
    {
        proof {
            lemma_curl_index_pairs(363 - i as int);
        }
        let (x, y, z) = (i + 1, i + 365, i);

        let a = s2_lo[x];
        let b = s2_hi[x];
        let c = s2_lo[y];
        let k = s2_hi[y];
        let p = s2_lo[z];
        let q = s2_hi[z];

        let d = b ^ c;
        let e = !(d & a);
        let f = (a ^ k) | d;
        let m = k ^ p;
        let n = !(m & c);
        let o = (c ^ q) | m;

        s1_lo[2 * (363 - i) + 1] = e;
        s1_lo[2 * (363 - i) + 2] = n;
        s1_hi[2 * (363 - i) + 1] = f;
        s1_hi[2 * (363 - i) + 2] = o;
    }
    assert(s1_lo@ =~= inner_round_lo(s2_lo@, s2_hi@, old(s1_lo)@));
    assert(s1_hi@ =~= inner_round_hi(s2_lo@, s2_hi@, old(s1_hi)@));
}

/// Cells 1 to 728 of one round of Curl from `(s2_lo, s2_hi)`, two cells
/// for each step, four steps at a time. Its contract is that of
/// `inner_loop_basic`: the two loops leave the same words.
fn inner_loop_u64x4(s2_lo: &Vec<i64>, s2_hi: &Vec<i64>, s1_lo: &mut Vec<i64>, s1_hi: &mut Vec<i64>)
    requires
        s2_lo@.len() == STATE_LENGTH,
        s2_hi@.len() == STATE_LENGTH,
        old(s1_lo)@.len() == STATE_LENGTH,
        old(s1_hi)@.len() == STATE_LENGTH,
    ensures
        final(s1_lo)@ == inner_round_lo(s2_lo@, s2_hi@, old(s1_lo)@),
        final(s1_hi)@ == inner_round_hi(s2_lo@, s2_hi@, old(s1_hi)@),
{
    let ghost rlo = round_lo_i64(s2_lo@, s2_hi@, 0);
    let ghost rhi = round_hi_i64(s2_lo@, s2_hi@, 0);
    let ghost lo0 = s1_lo@[0];
    let ghost hi0 = s1_hi@[0];
    let mut i: usize = 0;
    while i < 364
        invariant
            s2_lo@.len() == STATE_LENGTH,
            s2_hi@.len() == STATE_LENGTH,
            s1_lo@.len() == STATE_LENGTH,
            s1_hi@.len() == STATE_LENGTH,
            rlo == round_lo_i64(s2_lo@, s2_hi@, 0),
            rhi == round_hi_i64(s2_lo@, s2_hi@, 0),
            s1_lo@[0] == lo0,
            s1_hi@[0] == hi0,
            i <= 364,
            i % 4 == 0,
            forall|k: int| 2 * (364 - i as int) + 1 <= k < 729 ==> s1_lo@[k] == rlo[k],
            forall|k: int| 2 * (364 - i as int) + 1 <= k < 729 ==> s1_hi@[k] == rhi[k],
        decreases 364 - i,
    {
        proof {
            lemma_curl_index_pairs(363 - i as int);
            lemma_curl_index_pairs(362 - i as int);
            lemma_curl_index_pairs(361 - i as int);
            lemma_curl_index_pairs(360 - i as int);
        }
        let (x, y, z) = (i + 1, i + 365, i);

        let a = i64x4::new(s2_lo.as_slice(), x);
        let b = i64x4::new(s2_hi.as_slice(), x);
        let c = i64x4::new(s2_lo.as_slice(), y);
        let k = i64x4::new(s2_hi.as_slice(), y);
        let p = i64x4::new(s2_lo.as_slice(), z);
        let q = i64x4::new(s2_hi.as_slice(), z);

        let d = b.xor(&c);
        let e = d.and(&a).not();
        let f = a.xor(&k).or(&d);
        let m = k.xor(&p);
        let n = m.and(&c).not();
        let o = c.xor(&q).or(&m);

        s1_lo[2 * (363 - i) + 1] = e.0;
        s1_lo[2 * (363 - i) + 2] = n.0;
        s1_hi[2 * (363 - i) + 1] = f.0;
        s1_hi[2 * (363 - i) + 2] = o.0;

        s1_lo[2 * (362 - i) + 1] = e.1;
        s1_lo[2 * (362 - i) + 2] = n.1;
        s1_hi[2 * (362 - i) + 1] = f.1;
        s1_hi[2 * (362 - i) + 2] = o.1;

        s1_lo[2 * (361 - i) + 1] = e.2;
        s1_lo[2 * (361 - i) + 2] = n.2;
        s1_hi[2 * (361 - i) + 1] = f.2;
        s1_hi[2 * (361 - i) + 2] = o.2;

        s1_lo[2 * (360 - i) + 1] = e.3;
        s1_lo[2 * (360 - i) + 2] = n.3;
        s1_hi[2 * (360 - i) + 1] = f.3;
        s1_hi[2 * (360 - i) + 2] = o.3;

        i += 4;
    }
    assert(s1_lo@ =~= inner_round_lo(s2_lo@, s2_hi@, old(s1_lo)@));
    assert(s1_hi@ =~= inner_round_hi(s2_lo@, s2_hi@, old(s1_hi)@));
}

/// One round of Curl from `(src_lo, src_hi)` into `(dst_lo, dst_hi)`: the
/// first cell, then the inner loop.
fn round_into(src_lo: &Vec<i64>, src_hi: &Vec<i64>, dst_lo: &mut Vec<i64>, dst_hi: &mut Vec<i64>)
    requires
        src_lo@.len() == STATE_LENGTH,
        src_hi@.len() == STATE_LENGTH,
        old(dst_lo)@.len() == STATE_LENGTH,
        old(dst_hi)@.len() == STATE_LENGTH,
    ensures
        final(dst_lo)@ == round_lo_i64(src_lo@, src_hi@, 0),
        final(dst_hi)@ == round_hi_i64(src_lo@, src_hi@, 0),
{
    proof {
        lemma_curl_index_pairs(0);
    }
    let a = src_lo[0];
    let b = src_hi[0];
    let d = b ^ src_lo[364];
    dst_lo[0] = !(d & a);
    dst_hi[0] = (a ^ src_hi[364]) | d;

    inner_loop_u64x4(src_lo, src_hi, dst_lo, dst_hi);
    assert(dst_lo@[0] == round_lo_i64(src_lo@, src_hi@, 0)[0]);
    assert(dst_lo@ =~= round_lo_i64(src_lo@, src_hi@, 0));
    assert(dst_hi@ =~= round_hi_i64(src_lo@, src_hi@, 0));
}

/// The state after `k` rounds, the walk starting at cell 0.
spec fn after_rounds(lo: Seq<i64>, hi: Seq<i64>, k: nat) -> (Seq<i64>, Seq<i64>) {
    rounds_i64(lo, hi, 0, k)
}

/// A round whose walk starts at step `729 * k` reads what one starting at
/// step 0 reads.
proof fn lemma_round_period(lo: Seq<i64>, hi: Seq<i64>, k: int)
    requires
        lo.len() == 729,
        hi.len() == 729,
    ensures
        round_lo_i64(lo, hi, 729 * k) == round_lo_i64(lo, hi, 0),
        round_hi_i64(lo, hi, 729 * k) == round_hi_i64(lo, hi, 0),
{
    assert forall|c: int| 0 <= c < 729 implies #[trigger] round_lo_i64(lo, hi, 729 * k)[c]
        == round_lo_i64(lo, hi, 0)[c] by {
        lemma_curl_index_period(k, c);
        lemma_curl_index_period(k, c + 1);
    }
    assert forall|c: int| 0 <= c < 729 implies #[trigger] round_hi_i64(lo, hi, 729 * k)[c]
        == round_hi_i64(lo, hi, 0)[c] by {
        lemma_curl_index_period(k, c);
        lemma_curl_index_period(k, c + 1);
    }
    assert(round_lo_i64(lo, hi, 729 * k) =~= round_lo_i64(lo, hi, 0));
    assert(round_hi_i64(lo, hi, 729 * k) =~= round_hi_i64(lo, hi, 0));
}

/// One more round after `k`: the walk of a 729 cell state starts over at
/// every round.
proof fn lemma_after_rounds_step(lo: Seq<i64>, hi: Seq<i64>, k: nat)
    requires
        lo.len() == 729,
        hi.len() == 729,
    ensures
        after_rounds(lo, hi, k).0.len() == 729,
        after_rounds(lo, hi, k).1.len() == 729,
        after_rounds(lo, hi, k + 1) == (
            round_lo_i64(after_rounds(lo, hi, k).0, after_rounds(lo, hi, k).1, 0),
            round_hi_i64(after_rounds(lo, hi, k).0, after_rounds(lo, hi, k).1, 0),
        ),
{
    lemma_rounds_snoc_i64(lo, hi, 0, k);
    let p = after_rounds(lo, hi, k);
    assert(0 + k * lo.len() == 729 * k) by (nonlinear_arith)
        requires
            lo.len() == 729,
    ;
    lemma_round_period(p.0, p.1, k as int);
}

/// The Curl transform with the state and a scratch pad swapping roles after
/// every round: the even-numbered rounds write the scratch pad, so the state
/// keeps the last odd-numbered round, `fcurl_rounds(num_rounds)` rounds in
/// all.
fn transform(state_lo: &mut Vec<i64>, state_hi: &mut Vec<i64>, num_rounds: usize)
    requires
        old(state_lo)@.len() == STATE_LENGTH,
        old(state_hi)@.len() == STATE_LENGTH,
    ensures
        final(state_lo)@.len() == STATE_LENGTH,
        final(state_hi)@.len() == STATE_LENGTH,
        (final(state_lo)@, final(state_hi)@) == transform_i64(
            old(state_lo)@,
            old(state_hi)@,
            fcurl_rounds(num_rounds as nat),
        ),
{
    let ghost lo0 = state_lo@;
    let ghost hi0 = state_hi@;
    let mut scratch_lo = state_lo.clone();
    let mut scratch_hi = state_hi.clone();
    assert(scratch_lo@ =~= lo0);
    assert(scratch_hi@ =~= hi0);

    for round in 0..num_rounds
        invariant
            lo0.len() == STATE_LENGTH,
            hi0.len() == STATE_LENGTH,
            state_lo@.len() == STATE_LENGTH,
            state_hi@.len() == STATE_LENGTH,
            scratch_lo@.len() == STATE_LENGTH,
            scratch_hi@.len() == STATE_LENGTH,
            (state_lo@, state_hi@) == after_rounds(lo0, hi0, fcurl_rounds(round as nat)),
            (scratch_lo@, scratch_hi@) == after_rounds(
                lo0,
                hi0,
                if round % 2 == 0 {
                    round as nat
                } else {
                    (round - 1) as nat
                },
            ),
    {
        proof {
            lemma_after_rounds_step(lo0, hi0, round as nat);
            if round % 2 == 0 {
                assert(fcurl_rounds(round as nat) == if round == 0 { 0 } else { round - 1 });
                assert(fcurl_rounds((round + 1) as nat) == round + 1);
                assert((round + 1) % 2 == 1);
            } else {
                assert(fcurl_rounds(round as nat) == round);
                assert(fcurl_rounds((round + 1) as nat) == round);
                assert((round + 1) % 2 == 0);
            }
        }
        if round % 2 == 0 {
            round_into(&scratch_lo, &scratch_hi, state_lo, state_hi);
        } else {
            round_into(state_lo, state_hi, &mut scratch_lo, &mut scratch_hi);
        }
    }
}

/// Hashes each transaction of `transactions` with `num_rounds` rounds of
/// functional Curl, 64 transactions at a time: each batch of transactions
/// is interlaced into the lanes of 64 bit words and hashed in parallel.
pub fn simd_bct_fcurl_64(transactions: &[Vec<i8>], num_rounds: usize) -> (r: Vec<[i8; HASH_LENGTH]>)
    requires
        hashable_transactions(transactions@.map_values(|v: Vec<i8>| v@)),
    ensures
        r@.len() == transactions@.len(),
        forall|k: int|
            0 <= k < r@.len() ==> #[trigger] r@[k]@ == fcurl_hash(
                transactions@[k]@,
                num_rounds as nat,
            ),
{
    let ghost m = transactions@.map_values(|v: Vec<i8>| v@);
    let ghost n = transactions@.len();
    let mut offset: usize = 0;
    let mut length = transactions.len();
    let mut hashes: Vec<[i8; HASH_LENGTH]> = vec![[0i8; HASH_LENGTH]; length];

    loop
        invariant_except_break
            m == transactions@.map_values(|v: Vec<i8>| v@),
            n == transactions@.len(),
            hashable_transactions(m),
            hashes@.len() == n,
            offset + length == transactions.len(),
            forall|k: int|
                0 <= k < offset ==> #[trigger] hashes@[k]@ == fcurl_hash(
                    transactions@[k]@,
                    num_rounds as nat,
                ),
        ensures
            hashes@.len() == n,
            forall|k: int|
                0 <= k < n ==> #[trigger] hashes@[k]@ == fcurl_hash(
                    transactions@[k]@,
                    num_rounds as nat,
                ),
        decreases length,
    {
        let chunk_size = {
            if length < MAX_BATCH_SIZE_64 {
                length
            } else {
                MAX_BATCH_SIZE_64
            }
        };
        let batch_txs = slice_subrange(transactions, offset, offset + chunk_size);
        proof {
            lemma_batch_hashable(transactions@, offset as int, chunk_size as nat, batch_txs@, 64);
        }
        let batch = hash_batch(batch_txs, chunk_size, num_rounds);

        for j in 0..chunk_size
            invariant
                n == transactions@.len(),
                chunk_size <= length,
                batch@.len() == chunk_size,
                batch_txs@ == transactions@.subrange(offset as int, offset + chunk_size),
                forall|k: int|
                    0 <= k < chunk_size ==> #[trigger] batch@[k]@ == fcurl_hash(
                        batch_txs@[k]@,
                        num_rounds as nat,
                    ),
                hashes@.len() == n,
                offset + length == transactions.len(),
                forall|k: int|
                    0 <= k < offset + j ==> #[trigger] hashes@[k]@ == fcurl_hash(
                        transactions@[k]@,
                        num_rounds as nat,
                    ),
        {
            proof {
                assert(batch_txs@[j as int] == transactions@[offset + j]);
            }
            hashes[offset + j] = batch[j];
        }

        offset += chunk_size;

        if length > chunk_size {
            length -= chunk_size;
        } else {
            break;
        }
    }
    hashes
}

/// The hashes of the `chunk_size` transactions of `transactions`, hashed
/// together in the lanes of 64 bit words.
fn hash_batch(transactions: &[Vec<i8>], chunk_size: usize, num_rounds: usize) -> (r: Vec<
    [i8; HASH_LENGTH],
>)
    requires
        interlaceable_prefix(
            transactions@.map_values(|v: Vec<i8>| v@),
            chunk_size as nat,
            TRANSACTION_TRIT_LENGTH as nat,
            64,
        ),
    ensures
        r@.len() == chunk_size,
        forall|k: int|
            0 <= k < chunk_size ==> #[trigger] r@[k]@ == fcurl_hash(transactions@[k]@, num_rounds as nat),
{
    let ghost m = transactions@.map_values(|v: Vec<i8>| v@);

    // Interlace transactions
    let (trits_lo, trits_hi) = interlace_i64(transactions, chunk_size, TRANSACTION_TRIT_LENGTH);

    // Run FCurl
    let (state_lo, state_hi) = absorb_batch(&trits_lo, &trits_hi, num_rounds);

    // Deinterlace transactions
    let mut result: Vec<[i8; HASH_LENGTH]> = Vec::new();
    for j in 0..chunk_size
        invariant
            m == transactions@.map_values(|v: Vec<i8>| v@),
            interlaceable_prefix(m, chunk_size as nat, TRANSACTION_TRIT_LENGTH as nat, 64),
            interlaced_prefix_i64(m, chunk_size as nat, TRANSACTION_TRIT_LENGTH as nat, trits_lo@, trits_hi@),
            state_lo@.len() == STATE_LENGTH,
            state_hi@.len() == STATE_LENGTH,
            (state_lo@, state_hi@) == absorb_i64(
                Seq::new(729, |i: int| HIGH_I64_BITS),
                Seq::new(729, |i: int| HIGH_I64_BITS),
                trits_lo@,
                trits_hi@,
                243,
                fcurl_rounds(num_rounds as nat),
            ),
            result@.len() == j,
            forall|k: int|
                0 <= k < j ==> #[trigger] result@[k]@ == fcurl_hash(transactions@[k]@, num_rounds as nat),
    {
        let hash = deinterlace_hash(&state_lo, &state_hi, j);
        proof {
            lemma_batch_lane(m, chunk_size as nat, trits_lo@, trits_hi@, num_rounds as nat, j as u64);
        }
        result.push(hash);
    }
    result
}

/// Lane `j` of the batch state, taken back out: hash `j` of the batch.
proof fn lemma_batch_lane(
    m: Seq<Seq<i8>>,
    count: nat,
    tlo: Seq<i64>,
    thi: Seq<i64>,
    num_rounds: nat,
    j: u64,
)
    requires
        interlaceable_prefix(m, count, TRANSACTION_TRIT_LENGTH as nat, 64),
        interlaced_prefix_i64(m, count, TRANSACTION_TRIT_LENGTH as nat, tlo, thi),
        j < count,
    ensures
        ({
            let a = absorb_i64(
                Seq::new(729, |i: int| HIGH_I64_BITS),
                Seq::new(729, |i: int| HIGH_I64_BITS),
                tlo,
                thi,
                243,
                fcurl_rounds(num_rounds),
            );
            decode_lane(lane_i64(a.0, a.1, j)).take(243) == fcurl_hash(m[j as int], num_rounds)
        }),
{
    let z = Seq::new(729, |i: int| HIGH_I64_BITS);
    let tx = m[j as int].take(8019);
    assert(lane_i64(tlo, thi, j) =~= crate::bct_spec::encode_lane(tx)) by {
        assert forall|i: int| 0 <= i < 8019 implies #[trigger] lane_i64(tlo, thi, j)[i] == encode(
            tx[i],
        ) by {
            assert(bit_i64(tlo[i], j) == (j < count && m[j as int][i] != 1));
            assert(bit_i64(thi[i], j) == (j < count && m[j as int][i] != -1));
        }
    }
    assert(all_valid(lane_i64(tlo, thi, j))) by {
        assert forall|i: int| 0 <= i < lane_i64(tlo, thi, j).len() implies crate::bct_spec::valid(
            #[trigger] lane_i64(tlo, thi, j)[i],
        ) by {
            assert(is_trit(m[j as int][i]));
            lemma_encode_decode(tx[i]);
        }
    }
    assert(decode_lane(lane_i64(tlo, thi, j)) =~= tx) by {
        assert forall|i: int| 0 <= i < 8019 implies #[trigger] decode_lane(lane_i64(tlo, thi, j))[i]
            == tx[i] by {
            assert(is_trit(m[j as int][i]));
            lemma_encode_decode(tx[i]);
        }
    }
    assert(HIGH_I64_BITS >> j & 1i64 == 1i64) by (bit_vector)
        requires
            j < 64,
    ;
    assert(lane_valid(lane_i64(z, z, j)));
    assert(decode_lane(lane_i64(z, z, j)) =~= zero_trits(729));
    lemma_absorb_lane_i64(z, z, tlo, thi, 243, fcurl_rounds(num_rounds), j);
}

/// Absorbs the 8019 interlaced trits of a batch into a fresh state, 243 at
/// a time.
fn absorb_batch(trits_lo: &Vec<i64>, trits_hi: &Vec<i64>, num_rounds: usize) -> (r: (Vec<i64>, Vec<i64>))
    requires
        trits_lo@.len() == TRANSACTION_TRIT_LENGTH,
        trits_hi@.len() == TRANSACTION_TRIT_LENGTH,
    ensures
        r.0@.len() == STATE_LENGTH,
        r.1@.len() == STATE_LENGTH,
        (r.0@, r.1@) == absorb_i64(
            Seq::new(729, |i: int| HIGH_I64_BITS),
            Seq::new(729, |i: int| HIGH_I64_BITS),
            trits_lo@,
            trits_hi@,
            243,
            fcurl_rounds(num_rounds as nat),
        ),
{
    let ghost rounds = fcurl_rounds(num_rounds as nat);
    let ghost total = absorb_i64(
        Seq::new(729, |i: int| HIGH_I64_BITS),
        Seq::new(729, |i: int| HIGH_I64_BITS),
        trits_lo@,
        trits_hi@,
        243,
        rounds,
    );
    let mut state_lo = vec![HIGH_I64_BITS; STATE_LENGTH];
    let mut state_hi = vec![HIGH_I64_BITS; STATE_LENGTH];
    assert(state_lo@ =~= Seq::new(729, |i: int| HIGH_I64_BITS));
    assert(state_hi@ =~= Seq::new(729, |i: int| HIGH_I64_BITS));
    assert(trits_lo@.skip(0) =~= trits_lo@);
    assert(trits_hi@.skip(0) =~= trits_hi@);

    let mut i: usize = 0;
    let ghost mut t: int = 0;
    while i < TRANSACTION_TRIT_LENGTH
        invariant
            trits_lo@.len() == TRANSACTION_TRIT_LENGTH,
            trits_hi@.len() == TRANSACTION_TRIT_LENGTH,
            state_lo@.len() == STATE_LENGTH,
            state_hi@.len() == STATE_LENGTH,
            i == 243 * t,
            0 <= t <= 33,
            rounds == fcurl_rounds(num_rounds as nat),
            i < TRANSACTION_TRIT_LENGTH ==> absorb_i64(
                state_lo@,
                state_hi@,
                trits_lo@.skip(i as int),
                trits_hi@.skip(i as int),
                243,
                rounds,
            ) == total,
            i >= TRANSACTION_TRIT_LENGTH ==> (state_lo@, state_hi@) == total,
        decreases TRANSACTION_TRIT_LENGTH - i,
    {
        let ghost plo = state_lo@;
        let ghost phi = state_hi@;
        let ghost tlo = trits_lo@.skip(i as int);
        let ghost thi = trits_hi@.skip(i as int);
        copy_run(&mut state_lo, 0, trits_lo, i, HASH_LENGTH);
        copy_run(&mut state_hi, 0, trits_hi, i, HASH_LENGTH);
        assert(state_lo@ =~= tlo.take(243) + plo.skip(243));
        assert(state_hi@ =~= thi.take(243) + phi.skip(243));
        let ghost slo = state_lo@;
        let ghost shi = state_hi@;
        transform(&mut state_lo, &mut state_hi, num_rounds);
        proof {
            assert(tlo.len() >= 243);
            assert(absorb_i64(plo, phi, tlo, thi, 243, rounds) == if tlo.len() > 243 {
                absorb_i64(state_lo@, state_hi@, tlo.skip(243), thi.skip(243), 243, rounds)
            } else {
                (state_lo@, state_hi@)
            });
        }
        i += HASH_LENGTH;
        proof {
            t = t + 1;
            assert(tlo.skip(243) =~= trits_lo@.skip(i as int));
            assert(thi.skip(243) =~= trits_hi@.skip(i as int));
        }
    }
    (state_lo, state_hi)
}

/// The first 243 trits of lane `j` of a state.
fn deinterlace_hash(state_lo: &Vec<i64>, state_hi: &Vec<i64>, j: usize) -> (r: [i8; HASH_LENGTH])
    requires
        state_lo@.len() == STATE_LENGTH,
        state_hi@.len() == STATE_LENGTH,
        j < 64,
    ensures
        r@ == decode_lane(lane_i64(state_lo@, state_hi@, j as u64)).take(243),
{
    let mut hash = [0i8; HASH_LENGTH];
    for i in 0..HASH_LENGTH
        invariant
            state_lo@.len() == STATE_LENGTH,
            state_hi@.len() == STATE_LENGTH,
            j < 64,
            hash@.len() == HASH_LENGTH,
            forall|k: int|
                0 <= k < i ==> hash@[k] == decode_lane(lane_i64(state_lo@, state_hi@, j as u64))[k],
    {
        let lo = (state_lo[i] >> j) & 0x1;
        let hi = (state_hi[i] >> j) & 0x1;
        proof {
            lemma_lane_bit_i64(state_lo[i as int], j as u64);
            lemma_lane_bit_i64(state_hi[i as int], j as u64);
        }
        match (lo, hi) {
            (1, 0) => hash[i] = -1,
            (0, 1) => hash[i] = 1,
            (_, _) => hash[i] = 0,
        }
    }
    assert(hash@ =~= decode_lane(lane_i64(state_lo@, state_hi@, j as u64)).take(243));
    hash
}

proof fn lemma_lane_bit_i64(x: i64, j: u64)
    by (bit_vector)
    requires
        j < 64,
    ensures
        (x >> j) & 1i64 == 0i64 || (x >> j) & 1i64 == 1i64,
        bit_i64(x, j) == ((x >> j) & 1i64 == 1i64),
{
}

} // verus!
