//! Curl-P on 64 lanes at once: the state holds one binary-encoded trit per
//! lane in each pair of 64 bit words.
use vstd::prelude::*;
use crate::bct_types::Trits64;
use crate::bct_spec::{
    rounds_u64, round_lo_u64, round_hi_u64, lemma_rounds_snoc_u64, lane_u64, decode_lane, lane_valid, valid,
    encode, transform_ok, transform_u64, absorb_u64, all_valid, lemma_transform_lane_u64,
    lemma_absorb_lane_u64,
};
use crate::bct_mux::{interlaced_u64, lemma_demux_of_mux_u64};
use crate::constants::HIGH_U64_BITS;
use crate::copy::copy_run;
use crate::curl_spec::{
    curl_index, lemma_curl_index_step, curl_absorb, curl_squeeze, all_trits, is_trit, zero_trits,
};

verus! {

broadcast use crate::curl_spec::lemma_curl_index_bounds;

/// Squeezing `count` words: the first `hash_length` words of the state,
/// then a transform, as many times as whole hashes fit, then the first
/// `count % hash_length` words and a last transform when that is not zero.
/// The result is `(out_lo, out_hi, state_lo, state_hi)`.
pub open spec fn squeeze_u64(
    lo: Seq<u64>,
    hi: Seq<u64>,
    count: nat,
    hash_length: nat,
    num_rounds: nat,
) -> (Seq<u64>, Seq<u64>, Seq<u64>, Seq<u64>)
    decreases count,
{
    if hash_length == 0 || count == 0 {
        (Seq::empty(), Seq::empty(), lo, hi)
    } else if count >= hash_length {
        let s = transform_u64(lo, hi, num_rounds);
        let rest = squeeze_u64(s.0, s.1, (count - hash_length) as nat, hash_length, num_rounds);
        (
            lo.take(hash_length as int) + rest.0,
            hi.take(hash_length as int) + rest.1,
            rest.2,
            rest.3,
        )
    } else {
        let s = transform_u64(lo, hi, num_rounds);
        (lo.take(count as int), hi.take(count as int), s.0, s.1)
    }
}

/// A 64 lane Curl sponge.
pub struct BCTCurl64 {
    hash_length: usize,
    num_rounds: usize,
    state_length: usize,
    state: Trits64,
}

impl BCTCurl64 {
    /// The number of trits absorbed or squeezed at a time.
    pub closed spec fn hash_length(&self) -> nat {
        self.hash_length as nat
    }

    /// The number of rounds of a transform.
    pub closed spec fn num_rounds(&self) -> nat {
        self.num_rounds as nat
    }

    /// The `lo` words of the state.
    pub closed spec fn state_lo(&self) -> Seq<u64> {
        self.state.lo@
    }

    /// The `hi` words of the state.
    pub closed spec fn state_hi(&self) -> Seq<u64> {
        self.state.hi@
    }

    /// The state has `3 * hash_length` pairs of words.
    pub closed spec fn wf(&self) -> bool {
        &&& self.state_length == 3 * self.hash_length
        &&& self.state.lo@.len() == self.state_length
        &&& self.state.hi@.len() == self.state_length
    }

    /// A sponge for hashes of `hash_length` trits and `num_rounds` rounds,
    /// every lane of its state holding the trit 0.
    pub fn new(hash_length: usize, num_rounds: usize) -> (r: Self)
        requires
            3 * hash_length <= usize::MAX,
        ensures
            r.wf(),
            r.hash_length() == hash_length,
            r.num_rounds() == num_rounds,
            r.state_lo() == zero_state_u64(3 * hash_length as nat),
            r.state_hi() == zero_state_u64(3 * hash_length as nat),
    {
        let r = BCTCurl64 {
            hash_length,
            num_rounds,
            state_length: 3 * hash_length,
            state: Trits64::from(
                vec![HIGH_U64_BITS; 3 * hash_length],
                vec![HIGH_U64_BITS; 3 * hash_length],
            ),
        };
        assert(r.state.lo@ =~= zero_state_u64(3 * hash_length as nat));
        assert(r.state.hi@ =~= zero_state_u64(3 * hash_length as nat));
        r
    }

    /// Sets every lane of the state back to the trit 0.
    pub fn reset(&mut self)
        requires
            old(self).wf(),
        ensures
            final(self).wf(),
            final(self).hash_length() == old(self).hash_length(),
            final(self).num_rounds() == old(self).num_rounds(),
            final(self).state_lo() == zero_state_u64(3 * old(self).hash_length()),
            final(self).state_hi() == zero_state_u64(3 * old(self).hash_length()),
    {
        let state_length = self.state_length;
        for i in 0..state_length
            invariant
                state_length == self.state_length,
                self.wf(),
                self.hash_length == old(self).hash_length,
                self.num_rounds == old(self).num_rounds,
                forall|k: int| 0 <= k < i ==> self.state.lo@[k] == HIGH_U64_BITS,
                forall|k: int| 0 <= k < i ==> self.state.hi@[k] == HIGH_U64_BITS,
        {
            self.state.lo[i] = HIGH_U64_BITS;
            self.state.hi[i] = HIGH_U64_BITS;
        }
        assert(self.state.lo@ =~= zero_state_u64(3 * old(self).hash_length()));
        assert(self.state.hi@ =~= zero_state_u64(3 * old(self).hash_length()));
    }

    /// Absorbs `trits`: chunks of `hash_length` pairs of words, the last one
    /// possibly shorter, each copied over the start of the state and
    /// followed by a transform.
    pub fn absorb(&mut self, trits: Trits64)
        requires
            old(self).wf(),
            trits.lo@.len() == trits.hi@.len(),
            transform_ok(old(self).hash_length(), old(self).num_rounds()),
            old(self).hash_length() > 0 || trits.lo@.len() == 0,
        ensures
            final(self).wf(),
            final(self).hash_length() == old(self).hash_length(),
            final(self).num_rounds() == old(self).num_rounds(),
            (final(self).state_lo(), final(self).state_hi()) == absorb_u64(
                old(self).state_lo(),
                old(self).state_hi(),
                trits.lo@,
                trits.hi@,
                old(self).hash_length(),
                old(self).num_rounds(),
            ),
    {
        let ghost total = absorb_u64(
            self.state.lo@,
            self.state.hi@,
            trits.lo@,
            trits.hi@,
            self.hash_length as nat,
            self.num_rounds as nat,
        );
        let mut length = trits.lo.len();
        let mut offset: usize = 0;
        assert(trits.lo@.skip(0) =~= trits.lo@);
        assert(trits.hi@.skip(0) =~= trits.hi@);

        loop
            invariant_except_break
                self.wf(),
                self.hash_length == old(self).hash_length,
                self.num_rounds == old(self).num_rounds,
                transform_ok(self.hash_length as nat, self.num_rounds as nat),
                trits.lo@.len() == trits.hi@.len(),
                offset + length == trits.lo.len(),
                self.hash_length > 0 || length == 0,
                absorb_u64(
                    self.state.lo@,
                    self.state.hi@,
                    trits.lo@.skip(offset as int),
                    trits.hi@.skip(offset as int),
                    self.hash_length as nat,
                    self.num_rounds as nat,
                ) == total,
            ensures
                self.wf(),
                self.hash_length == old(self).hash_length,
                self.num_rounds == old(self).num_rounds,
                (self.state.lo@, self.state.hi@) == total,
            decreases length,
        {
            let ghost plo = self.state.lo@;
            let ghost phi = self.state.hi@;
            let ghost tlo = trits.lo@.skip(offset as int);
            let ghost thi = trits.hi@.skip(offset as int);
            let chunk_length = {
                if length < self.hash_length {
                    length
                } else {
                    self.hash_length
                }
            };

            copy_run(&mut self.state.lo, 0, &trits.lo, offset, chunk_length);
            copy_run(&mut self.state.hi, 0, &trits.hi, offset, chunk_length);
            assert(self.state.lo@ =~= tlo.take(chunk_length as int) + plo.skip(chunk_length as int));
            assert(self.state.hi@ =~= thi.take(chunk_length as int) + phi.skip(chunk_length as int));

            self.transform();

            offset += chunk_length;

            if length > chunk_length {
                length -= chunk_length;
                assert(tlo.skip(chunk_length as int) =~= trits.lo@.skip(offset as int));
                assert(thi.skip(chunk_length as int) =~= trits.hi@.skip(offset as int));
            } else {
                break;
            }
        }
    }

    /// Squeezes `trit_count` pairs of words out of the state: the first
    /// `hash_length` pairs followed by a transform, as many times as whole
    /// hashes fit, then the first `trit_count % hash_length` pairs and a last
    /// transform when that is not zero.
    pub fn squeeze(&mut self, trit_count: usize) -> (r: Trits64)
        requires
            old(self).wf(),
            old(self).hash_length() > 0,
            transform_ok(old(self).hash_length(), old(self).num_rounds()) || trit_count == 0,
        ensures
            final(self).wf(),
            final(self).hash_length() == old(self).hash_length(),
            final(self).num_rounds() == old(self).num_rounds(),
            ({
                let sq = squeeze_u64(
                    old(self).state_lo(),
                    old(self).state_hi(),
                    trit_count as nat,
                    old(self).hash_length(),
                    old(self).num_rounds(),
                );
                &&& r.lo@ == sq.0
                &&& r.hi@ == sq.1
                &&& final(self).state_lo() == sq.2
                &&& final(self).state_hi() == sq.3
            }),
    {
        let ghost total = squeeze_u64(
            self.state.lo@,
            self.state.hi@,
            trit_count as nat,
            self.hash_length as nat,
            self.num_rounds as nat,
        );
        let ghost h = self.hash_length as int;
        let mut result = Trits64::from(vec![0; trit_count], vec![0; trit_count]);

        let hash_count = trit_count / self.hash_length;
        proof {
            vstd::arithmetic::div_mod::lemma_fundamental_div_mod(trit_count as int, h);
            vstd::arithmetic::mul::lemma_mul_is_commutative(h, hash_count as int);
            vstd::arithmetic::div_mod::lemma_mod_bound(trit_count as int, h);
            assert(0 * h == 0);
            assert(result.lo@.take(0) + total.0 =~= total.0);
            assert(result.hi@.take(0) + total.1 =~= total.1);
        }

        for i in 0..hash_count
            invariant
                self.wf(),
                self.hash_length == old(self).hash_length,
                self.num_rounds == old(self).num_rounds,
                h == self.hash_length,
                h > 0,
                transform_ok(self.hash_length as nat, self.num_rounds as nat) || trit_count == 0,
                hash_count * h <= trit_count,
                trit_count - hash_count * h < h,
                result.lo@.len() == trit_count,
                result.hi@.len() == trit_count,
                i * h <= trit_count,
                ({
                    let sq = squeeze_u64(
                        self.state.lo@,
                        self.state.hi@,
                        (trit_count - i * h) as nat,
                        h as nat,
                        self.num_rounds as nat,
                    );
                    &&& result.lo@.take(i * h) + sq.0 == total.0
                    &&& result.hi@.take(i * h) + sq.1 == total.1
                    &&& sq.2 == total.2
                    &&& sq.3 == total.3
                }),
        {
            proof {
                vstd::arithmetic::mul::lemma_mul_inequality(i + 1, hash_count as int, h);
                vstd::arithmetic::mul::lemma_mul_is_distributive_add_other_way(h, i as int, 1);
                assert((i + 1) * h >= h) by (nonlinear_arith)
                    requires
                        i >= 0,
                        h > 0,
                ;
            }
            let ghost plo = self.state.lo@;
            let ghost phi = self.state.hi@;
            let ghost rlo = result.lo@;
            let ghost rhi = result.hi@;
            let ghost c = (trit_count - i * h) as nat;
            let offset = i * self.hash_length;

            copy_run(&mut result.lo, offset, &self.state.lo, 0, self.hash_length);
            copy_run(&mut result.hi, offset, &self.state.hi, 0, self.hash_length);

            self.transform();

            proof {
                let sq = squeeze_u64(plo, phi, c, h as nat, self.num_rounds as nat);
                let rest = squeeze_u64(
                    self.state.lo@,
                    self.state.hi@,
                    (c - h) as nat,
                    h as nat,
                    self.num_rounds as nat,
                );
                assert(sq.0 == plo.take(h) + rest.0);
                assert(sq.1 == phi.take(h) + rest.1);
                assert(trit_count - (i + 1) * h == c - h);
                assert(result.lo@.take((i + 1) * h) =~= rlo.take(i * h) + plo.take(h));
                assert(result.hi@.take((i + 1) * h) =~= rhi.take(i * h) + phi.take(h));
                assert(rlo.take(i * h) + plo.take(h) + rest.0 =~= rlo.take(i * h) + (plo.take(h)
                    + rest.0));
                assert(rhi.take(i * h) + phi.take(h) + rest.1 =~= rhi.take(i * h) + (phi.take(h)
                    + rest.1));
            }
        }

        let last = trit_count - hash_count * self.hash_length;
        let offset = trit_count - last;

        let ghost plo = self.state.lo@;
        let ghost phi = self.state.hi@;
        let ghost rlo = result.lo@;
        let ghost rhi = result.hi@;
        copy_run(&mut result.lo, offset, &self.state.lo, 0, last);
        copy_run(&mut result.hi, offset, &self.state.hi, 0, last);

        if trit_count % self.hash_length != 0 {
            self.transform();
        }
        proof {
            assert(result.lo@ =~= rlo.take(offset as int) + plo.take(last as int));
            assert(result.hi@ =~= rhi.take(offset as int) + phi.take(last as int));
            if last == 0 {
                assert(plo.take(0) =~= Seq::<u64>::empty());
                assert(phi.take(0) =~= Seq::<u64>::empty());
                assert(rlo.take(offset as int) + Seq::<u64>::empty() =~= rlo.take(offset as int));
                assert(rhi.take(offset as int) + Seq::<u64>::empty() =~= rhi.take(offset as int));
            }
        }
        result
    }

    /// Runs the Curl transform on the state.
    fn transform(&mut self)
        requires
            old(self).wf(),
            transform_ok(old(self).hash_length(), old(self).num_rounds()),
        ensures
            final(self).wf(),
            final(self).hash_length() == old(self).hash_length(),
            final(self).num_rounds() == old(self).num_rounds(),
            (final(self).state_lo(), final(self).state_hi()) == transform_u64(
                old(self).state_lo(),
                old(self).state_hi(),
                old(self).num_rounds(),
            ),
    {
        let ghost lo0 = self.state.lo@;
        let ghost hi0 = self.state.hi@;
        let mut scratch_pad_lo = vec![0u64; self.state_length];
        let mut scratch_pad_hi = vec![0u64; self.state_length];
        let mut scratch_pad_index: usize = 0;
        let num_rounds = self.num_rounds;
        let state_length = self.state_length;
        assert(0 * state_length == 0);
        proof {
            lemma_curl_index_step(0);
        }

        for round in 0..num_rounds
            invariant
                num_rounds == self.num_rounds,
                state_length == self.state_length,
                self.wf(),
                self.hash_length == old(self).hash_length,
                self.num_rounds == old(self).num_rounds,
                transform_ok(self.hash_length as nat, self.num_rounds as nat),
                lo0.len() == self.state_length,
                hi0.len() == self.state_length,
                scratch_pad_lo@.len() == self.state_length,
                scratch_pad_hi@.len() == self.state_length,
                (self.state.lo@, self.state.hi@) == rounds_u64(lo0, hi0, 0, round as nat),
                scratch_pad_index == curl_index(round * self.state_length),
        {
            let ghost plo = self.state.lo@;
            let ghost phi = self.state.hi@;
            let ghost step = round * self.state_length;
            proof {
                lemma_rounds_snoc_u64(lo0, hi0, 0, round as nat);
                assert(round * self.state_length >= 0) by (nonlinear_arith)
                    requires round >= 0, self.state_length >= 0;
            }
            copy_run(&mut scratch_pad_lo, 0, &self.state.lo, 0, self.state_length);
            copy_run(&mut scratch_pad_hi, 0, &self.state.hi, 0, self.state_length);
            assert(scratch_pad_lo@ =~= plo);
            assert(scratch_pad_hi@ =~= phi);

            for state_index in 0..state_length
                invariant
                    num_rounds == self.num_rounds,
                    state_length == self.state_length,
                    self.wf(),
                    self.hash_length == old(self).hash_length,
                    self.num_rounds == old(self).num_rounds,
                    round < self.num_rounds,
                    transform_ok(self.hash_length as nat, self.num_rounds as nat),
                    step >= 0,
                    plo.len() == self.state_length,
                    phi.len() == self.state_length,
                    scratch_pad_lo@ == plo,
                    scratch_pad_hi@ == phi,
                    scratch_pad_index == curl_index(step + state_index),
                    forall|k: int|
                        0 <= k < state_index ==> self.state.lo@[k] == round_lo_u64(plo, phi, step)[k],
                    forall|k: int|
                        0 <= k < state_index ==> self.state.hi@[k] == round_hi_u64(plo, phi, step)[k],
            {
                proof {
                    lemma_curl_index_step(step + state_index);
                }
                let a = scratch_pad_lo[scratch_pad_index];
                let b = scratch_pad_hi[scratch_pad_index];

                if scratch_pad_index < 365 {
                    scratch_pad_index += 364;
                } else {
                    scratch_pad_index -= 365;
                }

                let d = b ^ scratch_pad_lo[scratch_pad_index];
                self.state.lo[state_index] = !(d & a);
                self.state.hi[state_index] = (a ^ scratch_pad_hi[scratch_pad_index]) | d;
            }
            proof {
                assert(self.state.lo@ =~= round_lo_u64(plo, phi, step));
                assert(self.state.hi@ =~= round_hi_u64(plo, phi, step));
                assert(step + self.state_length == (round + 1) * self.state_length)
                    by (nonlinear_arith)
                    requires step == round * self.state_length;
                assert(0 + round * lo0.len() == step);
            }
        }
    }
}

/// Squeezing 64 bit words squeezes, in every lane whose state is valid,
/// that lane's Curl state: the 64 lanes are hashed independently.
pub proof fn lemma_squeeze_lane_u64(
    lo: Seq<u64>,
    hi: Seq<u64>,
    count: nat,
    hash_length: nat,
    num_rounds: nat,
    j: u64,
)
    requires
        lo.len() == 3 * hash_length,
        hi.len() == 3 * hash_length,
        transform_ok(hash_length, num_rounds),
        j < 64,
        lane_valid(lane_u64(lo, hi, j)),
    ensures
        ({
            let sq = squeeze_u64(lo, hi, count, hash_length, num_rounds);
            let c = curl_squeeze(decode_lane(lane_u64(lo, hi, j)), count, hash_length, num_rounds);
            &&& sq.0.len() == sq.1.len()
            &&& decode_lane(lane_u64(sq.0, sq.1, j)) == c.0
            &&& decode_lane(lane_u64(sq.2, sq.3, j)) == c.1
        }),
    decreases count,
{
    let d = decode_lane(lane_u64(lo, hi, j));
    if hash_length == 0 || count == 0 {
        assert(decode_lane(lane_u64(Seq::<u64>::empty(), Seq::<u64>::empty(), j)) =~= Seq::<
            i8,
        >::empty());
    } else {
        lemma_transform_lane_u64(lo, hi, num_rounds, j);
        let s = transform_u64(lo, hi, num_rounds);
        let h = hash_length as int;
        if count >= hash_length {
            lemma_squeeze_lane_u64(s.0, s.1, (count - hash_length) as nat, hash_length, num_rounds, j);
            let rest = squeeze_u64(s.0, s.1, (count - hash_length) as nat, hash_length, num_rounds);
            assert(decode_lane(lane_u64(lo.take(h) + rest.0, hi.take(h) + rest.1, j)) =~= d.take(h)
                + decode_lane(lane_u64(rest.0, rest.1, j)));
        } else {
            let k = count as int;
            assert(decode_lane(lane_u64(lo.take(k), hi.take(k), j)) =~= d.take(k));
        }
    }
}

/// The words of a fresh or reset state: every lane holds the trit 0.
pub open spec fn zero_state_u64(n: nat) -> Seq<u64> {
    Seq::new(n, |i: int| HIGH_U64_BITS)
}

/// A batch of transactions hashed together: once interlaced into 64 bit
/// words, absorbed into a fresh state and squeezed, lane `j` of the result
/// holds the Curl hash of transaction `j`.
pub proof fn lemma_bct_curl64_hashes_each_lane(
    m: Seq<Seq<i8>>,
    tlo: Seq<u64>,
    thi: Seq<u64>,
    hash_length: nat,
    num_rounds: nat,
    count: nat,
    j: u64,
)
    requires
        interlaced_u64(m, tlo, thi),
        j < 64,
        j < m.len(),
        m[j as int].len() == tlo.len(),
        all_trits(m[j as int]),
        hash_length > 0,
        transform_ok(hash_length, num_rounds),
    ensures
        ({
            let a = absorb_u64(
                zero_state_u64(3 * hash_length),
                zero_state_u64(3 * hash_length),
                tlo,
                thi,
                hash_length,
                num_rounds,
            );
            let sq = squeeze_u64(a.0, a.1, count, hash_length, num_rounds);
            let h = curl_squeeze(
                curl_absorb(
                    zero_trits(3 * hash_length),
                    m[j as int],
                    hash_length,
                    num_rounds,
                ),
                count,
                hash_length,
                num_rounds,
            );
            decode_lane(lane_u64(sq.0, sq.1, j)) == h.0
        }),
{
    let z = zero_state_u64(3 * hash_length);
    lemma_demux_of_mux_u64(m, tlo, thi, j);
    assert(all_valid(lane_u64(tlo, thi, j))) by {
        assert forall|i: int| 0 <= i < lane_u64(tlo, thi, j).len() implies valid(
            #[trigger] lane_u64(tlo, thi, j)[i],
        ) by {
            assert(is_trit(m[j as int][i]));
            assert(lane_u64(tlo, thi, j)[i] == encode(m[j as int][i]));
        }
    }
    assert(HIGH_U64_BITS >> j & 1u64 == 1u64) by (bit_vector)
        requires
            j < 64,
    ;
    assert(lane_valid(lane_u64(z, z, j)));
    assert(decode_lane(lane_u64(z, z, j)) =~= zero_trits(3 * hash_length));
    lemma_absorb_lane_u64(z, z, tlo, thi, hash_length, num_rounds, j);
    let a = absorb_u64(z, z, tlo, thi, hash_length, num_rounds);
    lemma_squeeze_lane_u64(a.0, a.1, count, hash_length, num_rounds, j);
}

/// Absorbing an input in two calls, split after a whole number of chunks,
/// leaves the state that absorbing it in one call leaves.
pub proof fn lemma_absorb_split_u64(
    lo: Seq<u64>,
    hi: Seq<u64>,
    t1_lo: Seq<u64>,
    t1_hi: Seq<u64>,
    t2_lo: Seq<u64>,
    t2_hi: Seq<u64>,
    hash_length: nat,
    num_rounds: nat,
    chunks: nat,
)
    requires
        hash_length >= 1,
        chunks >= 1,
        t1_lo.len() == chunks * hash_length,
        t1_hi.len() == t1_lo.len(),
        t2_lo.len() >= 1,
        t2_hi.len() == t2_lo.len(),
    ensures
        absorb_u64(lo, hi, t1_lo + t2_lo, t1_hi + t2_hi, hash_length, num_rounds) == absorb_u64(
            absorb_u64(lo, hi, t1_lo, t1_hi, hash_length, num_rounds).0,
            absorb_u64(lo, hi, t1_lo, t1_hi, hash_length, num_rounds).1,
            t2_lo,
            t2_hi,
            hash_length,
            num_rounds,
        ),
    decreases chunks,
{
    let h = hash_length as int;
    assert(chunks * hash_length >= hash_length) by (nonlinear_arith)
        requires
            chunks >= 1,
    ;
    let s = transform_u64(
        t1_lo.take(h) + lo.skip(h),
        t1_hi.take(h) + hi.skip(h),
        num_rounds,
    );
    assert((t1_lo + t2_lo).take(h) =~= t1_lo.take(h));
    assert((t1_hi + t2_hi).take(h) =~= t1_hi.take(h));
    assert((t1_lo + t2_lo).skip(h) =~= t1_lo.skip(h) + t2_lo);
    assert((t1_hi + t2_hi).skip(h) =~= t1_hi.skip(h) + t2_hi);
    if chunks == 1 {
        assert(1 * hash_length == hash_length);
        assert(t1_lo.len() == h);
    } else {
        assert((chunks - 1) * hash_length == chunks * hash_length - hash_length) by (nonlinear_arith);
        lemma_absorb_split_u64(
            s.0,
            s.1,
            t1_lo.skip(h),
            t1_hi.skip(h),
            t2_lo,
            t2_hi,
            hash_length,
            num_rounds,
            (chunks - 1) as nat,
        );
    }
}

/// Squeezing `a * hash_length + b` pairs of words in one call gives what
/// squeezing `a * hash_length` pairs, then `b` more, gives: the outputs one
/// after the other, and the same state.
pub proof fn lemma_squeeze_split_u64(
    lo: Seq<u64>,
    hi: Seq<u64>,
    a: nat,
    b: nat,
    hash_length: nat,
    num_rounds: nat,
)
    requires
        hash_length >= 1,
    ensures
        ({
            let whole = squeeze_u64(lo, hi, a * hash_length + b, hash_length, num_rounds);
            let first = squeeze_u64(lo, hi, a * hash_length, hash_length, num_rounds);
            let second = squeeze_u64(first.2, first.3, b, hash_length, num_rounds);
            &&& whole.0 == first.0 + second.0
            &&& whole.1 == first.1 + second.1
            &&& whole.2 == second.2
            &&& whole.3 == second.3
        }),
    decreases a,
{
    let h = hash_length as int;
    if a == 0 {
        assert(0 * hash_length == 0);
        let first = squeeze_u64(lo, hi, 0, hash_length, num_rounds);
        let second = squeeze_u64(lo, hi, b, hash_length, num_rounds);
        assert(first.0 + second.0 =~= second.0);
        assert(first.1 + second.1 =~= second.1);
    } else {
        assert(a * hash_length == (a - 1) * hash_length + hash_length) by (nonlinear_arith);
        assert((a - 1) * hash_length >= 0) by (nonlinear_arith)
            requires
                a >= 1,
        ;
        let s = transform_u64(lo, hi, num_rounds);
        lemma_squeeze_split_u64(s.0, s.1, (a - 1) as nat, b, hash_length, num_rounds);
        let first = squeeze_u64(lo, hi, a * hash_length, hash_length, num_rounds);
        let rest1 = squeeze_u64(s.0, s.1, ((a - 1) * hash_length) as nat, hash_length, num_rounds);
        let second = squeeze_u64(first.2, first.3, b, hash_length, num_rounds);
        let rest = squeeze_u64(s.0, s.1, ((a - 1) * hash_length + b) as nat, hash_length, num_rounds);
        assert(first.0 == lo.take(h) + rest1.0);
        assert(first.2 == rest1.2);
        assert(rest.0 == rest1.0 + second.0);
        assert(lo.take(h) + rest1.0 + second.0 =~= lo.take(h) + (rest1.0 + second.0));
        assert(hi.take(h) + rest1.1 + second.1 =~= hi.take(h) + (rest1.1 + second.1));
    }
}

} // verus!
