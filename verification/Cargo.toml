[package]
name = "ripindex"
version = "0.1.0"
edition = "2021"
publish = false

[dependencies]
anyhow = "1"
clap = { version = "4", features = ["derive", "env"] }
crc32fast = "1"
env_logger = "*"
ignore = "0.4"
libc = "0.2"
log = "0.4"
memmap2 = "0.9"
memory-stats = "1"
notify = "*"
rayon = "1"
serde = { version = "1", features = ["derive"] }
serde_json = "1"
thiserror = "*"
tokio = { version = "1", features = ["full"] }
toml = "*"
unicode-segmentation = "1"
xxhash-rust = { version = "0.8", features = ["xxh3"] }

[dev-dependencies]
tempfile = "3"
