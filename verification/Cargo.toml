[package]
name = "cix"
version = "0.1.0"
edition = "2021"
publish = false

[dependencies]
roaring = "*"
anyhow = "1"
byteorder = "1"
clap = { version = "4", features = ["derive"] }
crossbeam-channel = "0.5"
dashmap = "*"
ignore = "0.4"
memmap2 = "0.9"
notify = "*"
rayon = "1"
rustc-hash = "*"
tokio = { version = "1", features = ["macros", "rt-multi-thread"] }
