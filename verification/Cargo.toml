[package]
name = "verify"
version = "0.1.0"
edition = "2021"
publish = false

[dependencies]
anyhow = "*"
blake3 = { version = "*", features = ["mmap"] }
clap = { version = "*", features = ["derive"] }
console = "*"
glob = "*"
indicatif = "*"
regex = "*"
serde = { version = "*", features = ["derive"] }
serde_json = "*"
serde_yml = "*"

[dev-dependencies]
tempfile = "*"
