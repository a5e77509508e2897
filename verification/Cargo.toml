[package]
name = "hlc"
version = "0.1.0"
edition = "2021"
publish = false

[dependencies]
byteorder = "1"
crc32fast = "1"
sha2 = "0.10"
zstd = "0.13"
lz4_flex = "0.11"
num_cpus = "1"
rayon = "1"
clap = { version = "4", features = ["derive"] }
env_logger = "0.11"
indicatif = "0.17"
thiserror = "1"
anyhow = "1"
log = "0.4"
serde = { version = "1", features = ["derive"] }
serde_json = "1"
tokio = { version = "1", features = ["rt-multi-thread", "macros"] }
crossbeam-channel = "0.5"
memmap2 = "0.9"
