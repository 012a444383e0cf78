//! The Curl-P permutation and sponge on balanced trits.
use vstd::prelude::*;
use crate::constants::TRUTH_TABLE;

verus! {

/// A balanced trit: -1, 0 or 1.
pub open spec fn is_trit(t: i8) -> bool {
    -1 <= t <= 1
}

/// Every element of `s` is a balanced trit.
pub open spec fn all_trits(s: Seq<i8>) -> bool {
    forall|i: int| 0 <= i < s.len() ==> is_trit(#[trigger] s[i])
}

/// The Curl S-box applied to the trits `a` and `b`.
pub open spec fn truth(a: i8, b: i8) -> i8 {
    TRUTH_TABLE[a + 4 * b + 5]
}

/// The state cell that Curl reads at step `n` of its walk through the
/// first 729 cells: it starts at 0 and moves by 364 modulo 729.
#[verifier::opaque]
pub open spec fn curl_index(n: int) -> int {
    (364 * n) % 729
}

/// Every cell that the walk of Curl reads is below 729.
pub broadcast proof fn lemma_curl_index_bounds(n: int)
    ensures
        0 <= #[trigger] curl_index(n) < 729,
{
    reveal(curl_index);
}

/// One round of Curl: cell `k` becomes the S-box of the cells read at
/// steps `step + k` and `step + k + 1`.
pub open spec fn curl_round(s: Seq<i8>, step: int) -> Seq<i8> {
    Seq::new(s.len(), |k: int| truth(s[curl_index(step + k)], s[curl_index(step + k + 1)]))
}

/// `n` rounds of Curl, the walk going on from one round to the next.
pub open spec fn curl_rounds(s: Seq<i8>, step: int, n: nat) -> Seq<i8>
    decreases n,
{
    if n == 0 {
        s
    } else {
        curl_rounds(curl_round(s, step), step + s.len(), (n - 1) as nat)
    }
}

/// The walk of Curl: from cell `c` it moves to `c + 364` when `c < 365`, and
/// to `c - 365` otherwise; every cell it visits is below 729.
pub proof fn lemma_curl_index_step(n: int)
    requires
        n >= 0,
    ensures
        curl_index(0) == 0,
        0 <= curl_index(n) < 729,
        curl_index(n + 1) == if curl_index(n) < 365 {
            curl_index(n) + 364
        } else {
            curl_index(n) - 365
        },
{
    reveal(curl_index);
    let x = curl_index(n);
    assert(0 <= x < 729);
    assert(364 * (n + 1) == 364 * n + 364) by (nonlinear_arith);
    vstd::arithmetic::div_mod::lemma_add_mod_noop(364 * n, 364, 729);
    assert((364int % 729) == 364);
    assert(x % 729 == x) by {
        vstd::arithmetic::div_mod::lemma_small_mod(x as nat, 729);
    }
    if x < 365 {
        vstd::arithmetic::div_mod::lemma_small_mod((x + 364) as nat, 729);
    } else {
        vstd::arithmetic::div_mod::lemma_mod_add_multiples_vanish(x - 365, 729);
        vstd::arithmetic::div_mod::lemma_small_mod((x - 365) as nat, 729);
    }
}

/// The walk of Curl comes back to where it was after 729 steps.
pub proof fn lemma_curl_index_period(r: int, k: int)
    ensures
        curl_index(729 * r + k) == curl_index(k),
{
    reveal(curl_index);
    assert(364 * (729 * r + k) == 729 * (364 * r) + 364 * k) by (nonlinear_arith);
    vstd::arithmetic::div_mod::lemma_mod_multiples_vanish(364 * r, 364 * k, 729);
}

/// Running `n + 1` rounds is running `n` rounds, then one more.
pub proof fn lemma_curl_rounds_snoc(s: Seq<i8>, step: int, n: nat)
    ensures
        curl_rounds(s, step, n).len() == s.len(),
        curl_rounds(s, step, n + 1) == curl_round(curl_rounds(s, step, n), step + n * s.len()),
    decreases n,
{
    let t = curl_round(s, step);
    assert(t.len() == s.len());
    if n > 0 {
        lemma_curl_rounds_snoc(t, step + s.len(), (n - 1) as nat);
        assert(step + s.len() + (n - 1) * s.len() == step + n * s.len()) by (nonlinear_arith);
        assert(curl_rounds(s, step, n) == curl_rounds(t, step + s.len(), (n - 1) as nat));
        assert(curl_rounds(s, step, n + 1) == curl_rounds(t, step + s.len(), n));
    } else {
        assert(curl_rounds(t, step + s.len(), 0) == t);
        assert(curl_rounds(s, step, 1) == curl_rounds(t, step + s.len(), 0));
        assert(n * s.len() == 0);
    }
}

/// The Curl transform: `num_rounds` rounds, the walk starting at cell 0.
pub open spec fn curl_transform(s: Seq<i8>, num_rounds: nat) -> Seq<i8> {
    curl_rounds(s, 0, num_rounds)
}

/// The Curl sponge absorbing `t`: chunks of `hash_length` trits, the last
/// one possibly shorter, each copied over the start of the state and
/// followed by a transform. An empty input still transforms once.
pub open spec fn curl_absorb(s: Seq<i8>, t: Seq<i8>, hash_length: nat, num_rounds: nat) -> Seq<i8>
    decreases t.len(),
{
    let chunk = if t.len() < hash_length {
        t.len()
    } else {
        hash_length
    };
    let s1 = curl_transform(t.take(chunk as int) + s.skip(chunk as int), num_rounds);
    if t.len() > chunk && chunk > 0 {
        curl_absorb(s1, t.skip(chunk as int), hash_length, num_rounds)
    } else {
        s1
    }
}

/// The Curl sponge squeezing `count` trits: the first `hash_length` trits
/// of the state, then a transform, as many times as whole hashes fit, then
/// the first `count % hash_length` trits and a last transform when that is
/// not zero. The result is the trits squeezed and the state left.
pub open spec fn curl_squeeze(s: Seq<i8>, count: nat, hash_length: nat, num_rounds: nat) -> (
    Seq<i8>,
    Seq<i8>,
)
    decreases count,
{
    if hash_length == 0 || count == 0 {
        (Seq::empty(), s)
    } else if count >= hash_length {
        let rest = curl_squeeze(
            curl_transform(s, num_rounds),
            (count - hash_length) as nat,
            hash_length,
            num_rounds,
        );
        (s.take(hash_length as int) + rest.0, rest.1)
    } else {
        (s.take(count as int), curl_transform(s, num_rounds))
    }
}

/// A state of `n` zero trits.
pub open spec fn zero_trits(n: nat) -> Seq<i8> {
    Seq::new(n, |i: int| 0i8)
}

/// The rounds that a transform run on two buffers in turn leaves in the
/// state: the rounds write the state and the scratch pad by turns, so the
/// state holds the last odd-numbered round.
pub open spec fn fcurl_rounds(num_rounds: nat) -> nat {
    if num_rounds % 2 == 1 || num_rounds == 0 {
        num_rounds
    } else {
        (num_rounds - 1) as nat
    }
}

/// The hash of a transaction by the functional, batched Curl: its first 8019
/// trits absorbed into a state of 729 zero trits by chunks of 243, each
/// transform keeping `fcurl_rounds(num_rounds)` rounds, and the first 243
/// trits of the state.
pub open spec fn fcurl_hash(tx: Seq<i8>, num_rounds: nat) -> Seq<i8> {
    curl_absorb(zero_trits(729), tx.take(8019), 243, fcurl_rounds(num_rounds)).take(243)
}

/// Every transaction of `txs` holds at least the 8019 trits that its hash
/// reads, each of them a balanced trit.
pub open spec fn hashable_transactions(txs: Seq<Seq<i8>>) -> bool {
    &&& forall|k: int| 0 <= k < txs.len() ==> #[trigger] txs[k].len() >= 8019
    &&& forall|k: int, i: int| 0 <= k < txs.len() && 0 <= i < 8019 ==> is_trit(#[trigger] txs[k][i])
}

/// The cells that Curl reads in the first round, two steps at a time.
pub proof fn lemma_curl_index_pairs(i: int)
    requires
        0 <= i < 364,
    ensures
        curl_index(0) == 0,
        curl_index(1) == 364,
        curl_index(2 * i + 1) == 364 - i,
        curl_index(2 * i + 2) == 728 - i,
        curl_index(2 * i + 3) == 363 - i,
{
    reveal(curl_index);
    assert(364 * (2 * i + 1) == 729 * i + (364 - i)) by (nonlinear_arith);
    assert(364 * (2 * i + 2) == 729 * i + (728 - i)) by (nonlinear_arith);
    assert(364 * (2 * i + 3) == 729 * (i + 1) + (363 - i)) by (nonlinear_arith);
    vstd::arithmetic::div_mod::lemma_mod_multiples_vanish(i, 364 - i, 729);
    vstd::arithmetic::div_mod::lemma_mod_multiples_vanish(i, 728 - i, 729);
    vstd::arithmetic::div_mod::lemma_mod_multiples_vanish(i + 1, 363 - i, 729);
    vstd::arithmetic::div_mod::lemma_small_mod((364 - i) as nat, 729);
    vstd::arithmetic::div_mod::lemma_small_mod((728 - i) as nat, 729);
    vstd::arithmetic::div_mod::lemma_small_mod((363 - i) as nat, 729);
}

/// Hashing a transaction of 8019 trits with the Curl sponge, hashes of 243
/// trits and an odd number of rounds, gives the hash of the functional,
/// batched Curl: the two ways of hashing agree.
pub proof fn lemma_sponge_hash_is_fcurl_hash(tx: Seq<i8>, num_rounds: nat)
    requires
        tx.len() == 8019,
        num_rounds % 2 == 1,
    ensures
        curl_squeeze(curl_absorb(zero_trits(729), tx, 243, num_rounds), 243, 243, num_rounds).0
            == fcurl_hash(tx, num_rounds),
{
    let s = curl_absorb(zero_trits(729), tx, 243, num_rounds);
    let rest = curl_squeeze(curl_transform(s, num_rounds), 0, 243, num_rounds);
    assert(rest.0 == Seq::<i8>::empty());
    assert(s.take(243) + rest.0 =~= s.take(243));
    assert(tx.take(8019) =~= tx);
}

} // verus!
