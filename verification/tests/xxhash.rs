use std::hash::Hasher;

use curl_troika_benchmark::xxhash::xxhash;

#[test]
fn xxhash_of_empty_is_xxh64_of_empty() {
    assert_eq!(0xEF46DB3751D8E999, xxhash(&[]));
}

#[test]
fn xxhash_matches_twox_hash_byte_by_byte() {
    let trits: Vec<i8> = (0..100).map(|i| (i % 3) as i8 - 1).collect();
    let mut hasher = twox_hash::XxHash64::with_seed(0);
    for t in &trits {
        hasher.write_i8(*t);
    }
    assert_eq!(hasher.finish(), xxhash(&trits));
    assert_ne!(xxhash(&trits), xxhash(&trits[1..]));
}
