# curl_troika_benchmark

IOTA's Curl-P hash in binary-encoded trinary (BCT): a pair of words holds one
trit per bit lane, so one run of the Curl transform hashes 64 or 128
transactions at once. The library is verified with Verus.

* `src/curl_spec.rs`: Curl-P on balanced trits (S-box, rounds, sponge).
* `src/bct_spec.rs`: the BCT encoding, Curl on 64, 128 and signed 64 bit
  words, and the proofs that each lane runs Curl on its own trits.
* `src/bct_mux.rs`, `src/bct_types.rs`: interlacing trit arrays into lanes
  and taking a lane back out.
* `src/bct_curl_64.rs`: the 64 lane Curl sponge.
* `src/curl_func_bct_128.rs`, `src/simd_bct_fcurl.rs`: functional Curl on
  batches of 128 and 64 transactions.
* `src/convert.rs`: tryte strings, trytes and trits.
* `src/xxhash.rs`: the xxHash baseline, through `twox_hash`.
* `src/troika.rs`: Troika's constants and the column parity step of its
  permutation.
* `app/main.rs`: the benchmark program.
