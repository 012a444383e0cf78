[package]
name = "curl_troika_benchmark"
version = "0.1.0"
edition = "2021"
publish = false

[dependencies]
twox-hash = "1"
rand = "0.8"
num_cpus = "1"
scoped-pool = "1"
