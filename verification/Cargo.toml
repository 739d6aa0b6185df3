[package]
name = "rust_bencher"
version = "0.1.0"
edition = "2021"
publish = false

[dependencies]
rand = "0.8"
rayon = "1"
hashbrown = "0.14"
crossbeam-skiplist = "0.1"
simd-json = "*"
structopt = "0.3"
xactor = "*"
async-std = { version = "1", features = ["attributes"] }
async-trait = "0.1"
exec_time = "*"
