[package]
name = "rust_bart"
version = "0.1.0"
edition = "2021"
publish = false

[dependencies]
rand = "=0.8.8"
rand_distr = "=0.4.3"
statrs = "=0.16.1"
log = "=0.4.35"
nohash = "=0.2.0"
num_cpus = "=1.17.0"
ordered-float = "=4.6.0"
itertools = "=0.12.1"
rayon = "=1.12.0"
arrow = { version = "57", default-features = false, features = ["csv"] }
arrow-csv = "57"
