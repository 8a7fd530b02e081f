[package]
name = "ipld_amt"
version = "0.1.0"
edition = "2021"
publish = false

[dependencies]
anyhow = "1"
blake2b_simd = "1"
cid = "0.11"
itertools = "0.10"
serde = { version = "1", features = ["derive"] }
serde_ipld_dagcbor = "0.6"

[dev-dependencies]
serde_bytes = "0.11"
