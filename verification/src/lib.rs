//! Curl-P and Troika hashing building blocks for IOTA transactions, with
//! binary-encoded-trinary (BCT) batching that hashes up to 64 or 128
//! transactions at once.
pub mod constants;
pub mod curl_spec;
pub mod bct_spec;
pub mod bct_types;
pub mod batch_hasher;
pub mod bct_mux;
pub mod copy;
pub mod bct_curl_64;
pub mod curl_func_bct_128;
pub mod simd_bct_fcurl;
pub mod convert;
pub mod xxhash;
pub mod troika;
