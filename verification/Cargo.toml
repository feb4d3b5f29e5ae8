[package]
name = "hit_leiden"
version = "0.1.0"
edition = "2021"
publish = false

[dependencies]
bitvec = "1"
smallvec = "1"
rand = "0.8"
rayon = "1"
clap = { version = "4", default-features = false, features = ["derive", "std"] }
thiserror = "1"
graphrs = "*"
