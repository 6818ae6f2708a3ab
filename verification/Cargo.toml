[package]
name = "rust_solo_all_db"
version = "0.1.0"
edition = "2021"
publish = false

[dependencies]
bit-vec = "0.8"
fnv = "1"
csv = "1"
clap = { version = "4", features = ["derive"] }
serde = { version = "1", features = ["derive"] }
serde_yaml = "0.9"
serde_json = "1"
crossbeam-channel = "0.5"
parking_lot = "0.12"
rayon = "1"
syn = { version = "2", features = ["full"] }
quote = "1"
proc-macro2 = "1"
