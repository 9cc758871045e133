[package]
name = "ngram_ingest"
version = "0.1.0"
edition = "2021"
publish = false

[dependencies]
anyhow = "1"
clap = "2"
diesel = { version = "1.4", features = ["sqlite", "r2d2"] }
flate2 = "1"
libsqlite3-sys = { version = "0.22", features = ["bundled"] }
log = "0.4"
num_cpus = "1"
radix_trie = "0.2"
reqwest = { version = "0.11", default-features = false, features = ["blocking"] }
simplelog = "0.10"
tempfile = "3"
thiserror = "1"
threadpool = "1"
