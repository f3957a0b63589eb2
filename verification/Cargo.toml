[package]
name = "mtl"
version = "0.1.0"
edition = "2021"
publish = false

[dependencies]
anyhow = "1"
byteorder = "1"
clap = { version = "4", features = ["derive"] }
clap_complete = "4"
console = "0.15"
crossbeam-channel = "0.5"
env_logger = "0.10"
ignore = "0.4"
indicatif = "0.17"
itertools = "0.12"
log = "0.4"
notify = "6"
num_cpus = "1"
rayon = "1"
redb = "1"
scopeguard = "1"
similar = "2"
thiserror = "1"
xxhash-rust = { version = "0.8", features = ["xxh3", "xxh64"] }
