[package]
name = "dupfinder"
version = "0.1.0"
edition = "2021"
publish = false

[dependencies]
anyhow = "1"
blake3 = { version = "1", features = ["pure"] }
clap = { version = "4", features = ["derive"] }
colored = "*"
ctrlc = "3"
env_logger = "*"
humansize = "2"
indicatif = "*"
libc = "0.2"
log = "0.4"
rayon = "1"
serde = { version = "1", features = ["derive"] }
serde_json = "1"
supports-hyperlinks = "*"
walkdir = "2"

[dev-dependencies]
tempfile = "3"
