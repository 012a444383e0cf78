//! Functional Curl on batches of up to 128 transactions: each batch is
//! interlaced into 128 bit words, absorbed, and its hashes are taken back
//! out lane by lane.
use vstd::prelude::*;
use crate::bct_mux::{interlaceable_prefix, interlaced_prefix_u128, interlace_u128};
use crate::bct_spec::{
    rounds_u128, round_lo_u128, round_hi_u128, lemma_rounds_snoc_u128, transform_u128,
    absorb_u128, lane_u128, decode_lane, encode, lane_valid, all_valid, bit128,
    lemma_absorb_lane_u128, lemma_encode_decode,
};
use crate::constants::{
    HASH_LENGTH, STATE_LENGTH, TRANSACTION_TRIT_LENGTH, MAX_BATCH_SIZE_128, HIGH_U128_BITS,
};
use crate::copy::copy_run;
use crate::curl_spec::{
    lemma_curl_index_pairs, lemma_curl_index_period, fcurl_rounds, fcurl_hash,
    zero_trits, is_trit, hashable_transactions,
};
use vstd::slice::slice_subrange;

verus! {

broadcast use crate::curl_spec::lemma_curl_index_bounds;

/// One round of Curl from `(src_lo, src_hi)` into `(dst_lo, dst_hi)`.
fn round_into(src_lo: &Vec<u128>, src_hi: &Vec<u128>, dst_lo: &mut Vec<u128>, dst_hi: &mut Vec<u128>)
    requires
        src_lo@.len() == STATE_LENGTH,
        src_hi@.len() == STATE_LENGTH,
        old(dst_lo)@.len() == STATE_LENGTH,
        old(dst_hi)@.len() == STATE_LENGTH,
    ensures
        final(dst_lo)@ == round_lo_u128(src_lo@, src_hi@, 0),
        final(dst_hi)@ == round_hi_u128(src_lo@, src_hi@, 0),
{
    let ghost rlo = round_lo_u128(src_lo@, src_hi@, 0);
    let ghost rhi = round_hi_u128(src_lo@, src_hi@, 0);
    proof {
        lemma_curl_index_pairs(0);
    }
    let a = src_lo[0];
    let b = src_hi[0];
    let d = b ^ src_lo[364];
    dst_lo[0] = !(d & a);
    dst_hi[0] = (a ^ src_hi[364]) | d;

    for i in 0..364
        invariant
            src_lo@.len() == STATE_LENGTH,
            src_hi@.len() == STATE_LENGTH,
            dst_lo@.len() == STATE_LENGTH,
            dst_hi@.len() == STATE_LENGTH,
            rlo == round_lo_u128(src_lo@, src_hi@, 0),
            rhi == round_hi_u128(src_lo@, src_hi@, 0),
            forall|k: int| 0 <= k < 2 * (i as int) + 1 ==> dst_lo@[k] == rlo[k],
            forall|k: int| 0 <= k < 2 * (i as int) + 1 ==> dst_hi@[k] == rhi[k],
    {
        proof {
            lemma_curl_index_pairs(i as int);
        }
        let (x, y, z) = (364 - i, 729 - (i + 1), 364 - (i + 1));

        let a = src_lo[x];
        let b = src_hi[x];
        let d = b ^ src_lo[y];

        dst_lo[2 * i + 1] = !(d & a);
        dst_hi[2 * i + 1] = (a ^ src_hi[y]) | d;

        let a = src_lo[y];
        let b = src_hi[y];
        let d = b ^ src_lo[z];

        dst_lo[2 * i + 2] = !(d & a);
        dst_hi[2 * i + 2] = (a ^ src_hi[z]) | d;
    }
    assert(dst_lo@ =~= rlo);
    assert(dst_hi@ =~= rhi);
}

/// The state after `k` rounds, the walk starting at cell 0.
spec fn after_rounds(lo: Seq<u128>, hi: Seq<u128>, k: nat) -> (Seq<u128>, Seq<u128>) {
    rounds_u128(lo, hi, 0, k)
}

/// A round whose walk starts at step `729 * k` reads what one starting at
/// step 0 reads.
proof fn lemma_round_period(lo: Seq<u128>, hi: Seq<u128>, k: int)
    requires
        lo.len() == 729,
        hi.len() == 729,
    ensures
        round_lo_u128(lo, hi, 729 * k) == round_lo_u128(lo, hi, 0),
        round_hi_u128(lo, hi, 729 * k) == round_hi_u128(lo, hi, 0),
{
    assert forall|c: int| 0 <= c < 729 implies #[trigger] round_lo_u128(lo, hi, 729 * k)[c]
        == round_lo_u128(lo, hi, 0)[c] by {
        lemma_curl_index_period(k, c);
        lemma_curl_index_period(k, c + 1);
    }
    assert forall|c: int| 0 <= c < 729 implies #[trigger] round_hi_u128(lo, hi, 729 * k)[c]
        == round_hi_u128(lo, hi, 0)[c] by {
        lemma_curl_index_period(k, c);
        lemma_curl_index_period(k, c + 1);
    }
    assert(round_lo_u128(lo, hi, 729 * k) =~= round_lo_u128(lo, hi, 0));
    assert(round_hi_u128(lo, hi, 729 * k) =~= round_hi_u128(lo, hi, 0));
}

/// One more round after `k`: the walk of a 729 cell state starts over at
/// every round.
proof fn lemma_after_rounds_step(lo: Seq<u128>, hi: Seq<u128>, k: nat)
    requires
        lo.len() == 729,
        hi.len() == 729,
    ensures
        after_rounds(lo, hi, k).0.len() == 729,
        after_rounds(lo, hi, k).1.len() == 729,
        after_rounds(lo, hi, k + 1) == (
            round_lo_u128(after_rounds(lo, hi, k).0, after_rounds(lo, hi, k).1, 0),
            round_hi_u128(after_rounds(lo, hi, k).0, after_rounds(lo, hi, k).1, 0),
        ),
{
    lemma_rounds_snoc_u128(lo, hi, 0, k);
    let p = after_rounds(lo, hi, k);
    assert(0 + k * lo.len() == 729 * k) by (nonlinear_arith)
        requires
            lo.len() == 729,
    ;
    lemma_round_period(p.0, p.1, k as int);
}

/// The Curl transform with the state and a scratch pad swapping roles after
/// every round: the even-numbered rounds write the scratch pad, so the state
/// keeps the last odd-numbered round, `fcurl_rounds(num_rounds)` rounds in
/// all.
fn transform(state_lo: &mut Vec<u128>, state_hi: &mut Vec<u128>, num_rounds: usize)
    requires
        old(state_lo)@.len() == STATE_LENGTH,
        old(state_hi)@.len() == STATE_LENGTH,
    ensures
        final(state_lo)@.len() == STATE_LENGTH,
        final(state_hi)@.len() == STATE_LENGTH,
        (final(state_lo)@, final(state_hi)@) == transform_u128(
            old(state_lo)@,
            old(state_hi)@,
            fcurl_rounds(num_rounds as nat),
        ),
{
    let ghost lo0 = state_lo@;
    let ghost hi0 = state_hi@;
    let mut scratch_lo = state_lo.clone();
    let mut scratch_hi = state_hi.clone();
    assert(scratch_lo@ =~= lo0);
    assert(scratch_hi@ =~= hi0);

    for round in 0..num_rounds
        invariant
            lo0.len() == STATE_LENGTH,
            hi0.len() == STATE_LENGTH,
            state_lo@.len() == STATE_LENGTH,
            state_hi@.len() == STATE_LENGTH,
            scratch_lo@.len() == STATE_LENGTH,
            scratch_hi@.len() == STATE_LENGTH,
            (state_lo@, state_hi@) == after_rounds(lo0, hi0, fcurl_rounds(round as nat)),
            (scratch_lo@, scratch_hi@) == after_rounds(
                lo0,
                hi0,
                if round % 2 == 0 {
                    round as nat
                } else {
                    (round - 1) as nat
                },
            ),
    {
        proof {
            lemma_after_rounds_step(lo0, hi0, round as nat);
            if round % 2 == 0 {
                assert(fcurl_rounds(round as nat) == if round == 0 { 0 } else { round - 1 });
                assert(fcurl_rounds((round + 1) as nat) == round + 1);
                assert((round + 1) % 2 == 1);
            } else {
                assert(fcurl_rounds(round as nat) == round);
                assert(fcurl_rounds((round + 1) as nat) == round);
                assert((round + 1) % 2 == 0);
            }
        }
        if round % 2 == 0 {
            round_into(&scratch_lo, &scratch_hi, state_lo, state_hi);
        } else {
            round_into(state_lo, state_hi, &mut scratch_lo, &mut scratch_hi);
        }
    }
}

/// Hashes each transaction of `transactions` with `num_rounds` rounds of
/// functional Curl, 128 transactions at a time: each batch of transactions
/// is interlaced into the lanes of 128 bit words and hashed in parallel.
pub fn bct_fcurl_128(transactions: &Vec<Vec<i8>>, num_rounds: usize) -> (r: Vec<[i8; HASH_LENGTH]>)
    requires
        hashable_transactions(transactions@.map_values(|v: Vec<i8>| v@)),
    ensures
        r@.len() == transactions@.len(),
        forall|k: int|
            0 <= k < r@.len() ==> #[trigger] r@[k]@ == fcurl_hash(
                transactions@[k]@,
                num_rounds as nat,
            ),
{
    let ghost m = transactions@.map_values(|v: Vec<i8>| v@);
    let ghost n = transactions@.len();
    let mut offset: usize = 0;
    let mut length = transactions.len();
    let mut hashes: Vec<[i8; HASH_LENGTH]> = vec![[0i8; HASH_LENGTH]; length];

    loop
        invariant_except_break
            m == transactions@.map_values(|v: Vec<i8>| v@),
            n == transactions@.len(),
            hashable_transactions(m),
            hashes@.len() == n,
            offset + length == transactions.len(),
            forall|k: int|
                0 <= k < offset ==> #[trigger] hashes@[k]@ == fcurl_hash(
                    transactions@[k]@,
                    num_rounds as nat,
                ),
        ensures
            hashes@.len() == n,
            forall|k: int|
                0 <= k < n ==> #[trigger] hashes@[k]@ == fcurl_hash(
                    transactions@[k]@,
                    num_rounds as nat,
                ),
        decreases length,
    {
        let chunk_size = {
            if length < MAX_BATCH_SIZE_128 {
                length
            } else {
                MAX_BATCH_SIZE_128
            }
        };
        let batch_txs = slice_subrange(transactions.as_slice(), offset, offset + chunk_size);
        proof {
            lemma_batch_hashable(transactions@, offset as int, chunk_size as nat, batch_txs@, 128);
        }
        let batch = hash_batch(batch_txs, chunk_size, num_rounds);

        for j in 0..chunk_size
            invariant
                n == transactions@.len(),
                chunk_size <= length,
                batch@.len() == chunk_size,
                batch_txs@ == transactions@.subrange(offset as int, offset + chunk_size),
                forall|k: int|
                    0 <= k < chunk_size ==> #[trigger] batch@[k]@ == fcurl_hash(
                        batch_txs@[k]@,
                        num_rounds as nat,
                    ),
                hashes@.len() == n,
                offset + length == transactions.len(),
                forall|k: int|
                    0 <= k < offset + j ==> #[trigger] hashes@[k]@ == fcurl_hash(
                        transactions@[k]@,
                        num_rounds as nat,
                    ),
        {
            proof {
                assert(batch_txs@[j as int] == transactions@[offset + j]);
            }
            hashes[offset + j] = batch[j];
        }

        offset += chunk_size;

        if length > chunk_size {
            length -= chunk_size;
        } else {
            break;
        }
    }
    hashes
}

/// The `count` transactions of `transactions` from `offset` on fit in the
/// lanes of words of `width` bits, when `count` is at most `width`.
pub(crate) proof fn lemma_batch_hashable(
    transactions: Seq<Vec<i8>>,
    offset: int,
    count: nat,
    batch: Seq<Vec<i8>>,
    width: nat,
)
    requires
        hashable_transactions(transactions.map_values(|v: Vec<i8>| v@)),
        0 <= offset,
        offset + count <= transactions.len(),
        count <= width,
        batch == transactions.subrange(offset, offset + count),
    ensures
        interlaceable_prefix(
            batch.map_values(|v: Vec<i8>| v@),
            count,
            TRANSACTION_TRIT_LENGTH as nat,
            width,
        ),
{
    let m = transactions.map_values(|v: Vec<i8>| v@);
    let b = batch.map_values(|v: Vec<i8>| v@);
    assert forall|j: int| 0 <= j < count implies #[trigger] b[j] == m[offset + j] by {}
    assert forall|j: int| 0 <= j < count implies #[trigger] b[j].len() >= 8019 by {
        assert(b[j] == m[offset + j]);
    }
    assert forall|j: int, i: int| 0 <= j < count && 0 <= i < 8019 implies is_trit(#[trigger] b[j][i]) by {
        assert(b[j] == m[offset + j]);
    }
}

/// The hashes of the `chunk_size` transactions of `transactions`, hashed
/// together in the lanes of 128 bit words.
fn hash_batch(transactions: &[Vec<i8>], chunk_size: usize, num_rounds: usize) -> (r: Vec<
    [i8; HASH_LENGTH],
>)
    requires
        interlaceable_prefix(
            transactions@.map_values(|v: Vec<i8>| v@),
            chunk_size as nat,
            TRANSACTION_TRIT_LENGTH as nat,
            128,
        ),
    ensures
        r@.len() == chunk_size,
        forall|k: int|
            0 <= k < chunk_size ==> #[trigger] r@[k]@ == fcurl_hash(transactions@[k]@, num_rounds as nat),
{
    let ghost m = transactions@.map_values(|v: Vec<i8>| v@);

    // Interlace transactions
    let (trits_lo, trits_hi) = interlace_u128(transactions, chunk_size, TRANSACTION_TRIT_LENGTH);

    // Run FCurl
    let (state_lo, state_hi) = absorb_batch(&trits_lo, &trits_hi, num_rounds);

    // Deinterlace transactions
    let mut result: Vec<[i8; HASH_LENGTH]> = Vec::new();
    for j in 0..chunk_size
        invariant
            m == transactions@.map_values(|v: Vec<i8>| v@),
            interlaceable_prefix(m, chunk_size as nat, TRANSACTION_TRIT_LENGTH as nat, 128),
            interlaced_prefix_u128(m, chunk_size as nat, TRANSACTION_TRIT_LENGTH as nat, trits_lo@, trits_hi@),
            state_lo@.len() == STATE_LENGTH,
            state_hi@.len() == STATE_LENGTH,
            (state_lo@, state_hi@) == absorb_u128(
                Seq::new(729, |i: int| HIGH_U128_BITS),
                Seq::new(729, |i: int| HIGH_U128_BITS),
                trits_lo@,
                trits_hi@,
                243,
                fcurl_rounds(num_rounds as nat),
            ),
            result@.len() == j,
            forall|k: int|
                0 <= k < j ==> #[trigger] result@[k]@ == fcurl_hash(transactions@[k]@, num_rounds as nat),
    {
        let hash = deinterlace_hash(&state_lo, &state_hi, j);
        proof {
            lemma_batch_lane(m, chunk_size as nat, trits_lo@, trits_hi@, num_rounds as nat, j as u128);
        }
        result.push(hash);
    }
    result
}

/// Lane `j` of the batch state, taken back out: hash `j` of the batch.
proof fn lemma_batch_lane(
    m: Seq<Seq<i8>>,
    count: nat,
    tlo: Seq<u128>,
    thi: Seq<u128>,
    num_rounds: nat,
    j: u128,
)
    requires
        interlaceable_prefix(m, count, TRANSACTION_TRIT_LENGTH as nat, 128),
        interlaced_prefix_u128(m, count, TRANSACTION_TRIT_LENGTH as nat, tlo, thi),
        j < count,
    ensures
        ({
            let a = absorb_u128(
                Seq::new(729, |i: int| HIGH_U128_BITS),
                Seq::new(729, |i: int| HIGH_U128_BITS),
                tlo,
                thi,
                243,
                fcurl_rounds(num_rounds),
            );
            decode_lane(lane_u128(a.0, a.1, j)).take(243) == fcurl_hash(m[j as int], num_rounds)
        }),
{
    let z = Seq::new(729, |i: int| HIGH_U128_BITS);
    let tx = m[j as int].take(8019);
    assert(lane_u128(tlo, thi, j) =~= crate::bct_spec::encode_lane(tx)) by {
        assert forall|i: int| 0 <= i < 8019 implies #[trigger] lane_u128(tlo, thi, j)[i] == encode(
            tx[i],
        ) by {
            assert(bit128(tlo[i], j) == (j < count && m[j as int][i] != 1));
            assert(bit128(thi[i], j) == (j < count && m[j as int][i] != -1));
        }
    }
    assert(all_valid(lane_u128(tlo, thi, j))) by {
        assert forall|i: int| 0 <= i < lane_u128(tlo, thi, j).len() implies crate::bct_spec::valid(
            #[trigger] lane_u128(tlo, thi, j)[i],
        ) by {
            assert(is_trit(m[j as int][i]));
            lemma_encode_decode(tx[i]);
        }
    }
    assert(decode_lane(lane_u128(tlo, thi, j)) =~= tx) by {
        assert forall|i: int| 0 <= i < 8019 implies #[trigger] decode_lane(lane_u128(tlo, thi, j))[i]
            == tx[i] by {
            assert(is_trit(m[j as int][i]));
            lemma_encode_decode(tx[i]);
        }
    }
    assert(HIGH_U128_BITS >> j & 1u128 == 1u128) by (bit_vector)
        requires
            j < 128,
    ;
    assert(lane_valid(lane_u128(z, z, j)));
    assert(decode_lane(lane_u128(z, z, j)) =~= zero_trits(729));
    lemma_absorb_lane_u128(z, z, tlo, thi, 243, fcurl_rounds(num_rounds), j);
}

/// Absorbs the 8019 interlaced trits of a batch into a fresh state, 243 at
/// a time.
fn absorb_batch(trits_lo: &Vec<u128>, trits_hi: &Vec<u128>, num_rounds: usize) -> (r: (Vec<u128>, Vec<u128>))
    requires
        trits_lo@.len() == TRANSACTION_TRIT_LENGTH,
        trits_hi@.len() == TRANSACTION_TRIT_LENGTH,
    ensures
        r.0@.len() == STATE_LENGTH,
        r.1@.len() == STATE_LENGTH,
        (r.0@, r.1@) == absorb_u128(
            Seq::new(729, |i: int| HIGH_U128_BITS),
            Seq::new(729, |i: int| HIGH_U128_BITS),
            trits_lo@,
            trits_hi@,
            243,
            fcurl_rounds(num_rounds as nat),
        ),
{
    let ghost rounds = fcurl_rounds(num_rounds as nat);
    let ghost total = absorb_u128(
        Seq::new(729, |i: int| HIGH_U128_BITS),
        Seq::new(729, |i: int| HIGH_U128_BITS),
        trits_lo@,
        trits_hi@,
        243,
        rounds,
    );
    let mut state_lo = vec![HIGH_U128_BITS; STATE_LENGTH];
    let mut state_hi = vec![HIGH_U128_BITS; STATE_LENGTH];
    assert(state_lo@ =~= Seq::new(729, |i: int| HIGH_U128_BITS));
    assert(state_hi@ =~= Seq::new(729, |i: int| HIGH_U128_BITS));
    assert(trits_lo@.skip(0) =~= trits_lo@);
    assert(trits_hi@.skip(0) =~= trits_hi@);

    let mut i: usize = 0;
    let ghost mut t: int = 0;
    while i < TRANSACTION_TRIT_LENGTH
        invariant
            trits_lo@.len() == TRANSACTION_TRIT_LENGTH,
            trits_hi@.len() == TRANSACTION_TRIT_LENGTH,
            state_lo@.len() == STATE_LENGTH,
            state_hi@.len() == STATE_LENGTH,
            i == 243 * t,
            0 <= t <= 33,
            rounds == fcurl_rounds(num_rounds as nat),
            i < TRANSACTION_TRIT_LENGTH ==> absorb_u128(
                state_lo@,
                state_hi@,
                trits_lo@.skip(i as int),
                trits_hi@.skip(i as int),
                243,
                rounds,
            ) == total,
            i >= TRANSACTION_TRIT_LENGTH ==> (state_lo@, state_hi@) == total,
        decreases TRANSACTION_TRIT_LENGTH - i,
    {
        let ghost plo = state_lo@;
        let ghost phi = state_hi@;
        let ghost tlo = trits_lo@.skip(i as int);
        let ghost thi = trits_hi@.skip(i as int);
        copy_run(&mut state_lo, 0, trits_lo, i, HASH_LENGTH);
        copy_run(&mut state_hi, 0, trits_hi, i, HASH_LENGTH);
        assert(state_lo@ =~= tlo.take(243) + plo.skip(243));
        assert(state_hi@ =~= thi.take(243) + phi.skip(243));
        let ghost slo = state_lo@;
        let ghost shi = state_hi@;
        transform(&mut state_lo, &mut state_hi, num_rounds);
        proof {
            assert(tlo.len() >= 243);
            assert(absorb_u128(plo, phi, tlo, thi, 243, rounds) == if tlo.len() > 243 {
                absorb_u128(state_lo@, state_hi@, tlo.skip(243), thi.skip(243), 243, rounds)
            } else {
                (state_lo@, state_hi@)
            });
        }
        i += HASH_LENGTH;
        proof {
            t = t + 1;
            assert(tlo.skip(243) =~= trits_lo@.skip(i as int));
            assert(thi.skip(243) =~= trits_hi@.skip(i as int));
        }
    }
    (state_lo, state_hi)
}

/// The first 243 trits of lane `j` of a state.
fn deinterlace_hash(state_lo: &Vec<u128>, state_hi: &Vec<u128>, j: usize) -> (r: [i8; HASH_LENGTH])
    requires
        state_lo@.len() == STATE_LENGTH,
        state_hi@.len() == STATE_LENGTH,
        j < 128,
    ensures
        r@ == decode_lane(lane_u128(state_lo@, state_hi@, j as u128)).take(243),
{
    let mut hash = [0i8; HASH_LENGTH];
    for i in 0..HASH_LENGTH
        invariant
            state_lo@.len() == STATE_LENGTH,
            state_hi@.len() == STATE_LENGTH,
            j < 128,
            hash@.len() == HASH_LENGTH,
            forall|k: int|
                0 <= k < i ==> hash@[k] == decode_lane(lane_u128(state_lo@, state_hi@, j as u128))[k],
    {
        let lo = (state_lo[i] >> j) & 0x1;
        let hi = (state_hi[i] >> j) & 0x1;
        proof {
            lemma_lane_bit_u128(state_lo[i as int], j as u128);
            lemma_lane_bit_u128(state_hi[i as int], j as u128);
        }
        match (lo, hi) {
            (1, 0) => hash[i] = -1,
            (0, 1) => hash[i] = 1,
            (_, _) => hash[i] = 0,
        }
    }
    assert(hash@ =~= decode_lane(lane_u128(state_lo@, state_hi@, j as u128)).take(243));
    hash
}

proof fn lemma_lane_bit_u128(x: u128, j: u128)
    by (bit_vector)
    requires
        j < 128,
    ensures
        (x >> j) & 1u128 == 0u128 || (x >> j) & 1u128 == 1u128,
        bit128(x, j) == ((x >> j) & 1u128 == 1u128),
{
}

} // verus!
