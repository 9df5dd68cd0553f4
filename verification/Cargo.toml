[package]
name = "fastctx"
version = "0.1.0"
edition = "2021"
publish = false

[dependencies]
chardetng = "1"
encoding_rs = "0.8"
fs2 = "0.4"
grep-matcher = "0.1"
grep-regex = "0.1"
grep-searcher = "0.1"
hex = "0.4"
ignore = "0.4"
libc = "0.2"
parking_lot = "0.12"
rayon = "1"
regex = "1"
regex-syntax = "0.8"
rmcp = { version = "*", features = ["server", "macros", "transport-io"] }
schemars = "1"
serde = { version = "1", features = ["derive"] }
serde_json = "1"
sha2 = "0.10"
tempfile = "3"
time = { version = "0.3", features = ["formatting", "macros"] }
tokio = { version = "1", features = ["rt-multi-thread", "macros", "io-std"] }
tokio-util = "0.7"
