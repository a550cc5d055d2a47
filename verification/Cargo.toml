[package]
name = "rusty_structures"
version = "0.1.0"
edition = "2021"
publish = false

[dependencies]
const-murmur3 = "*"
const-fnv1a-hash = "*"
xxhash-rust = { version = "*", features = ["xxh3"] }
hashers = "*"
twox-hash = "*"
fastmurmur3 = "*"
evalexpr = "*"
rand = "*"
bitvec = "*"
