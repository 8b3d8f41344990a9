[package]
name = "scrubfs"
version = "0.1.0"
edition = "2021"
publish = false

[dependencies]
clap = { version = "=4.6.7", features = ["derive"] }
ctrlc = "=3.5.2"
fuser = { version = "=0.14.0", default-features = false }
libc = "=0.2.191"
serde = { version = "=1.0.229", features = ["derive"] }
tempfile = "=3.27.0"
toml = "=0.8.23"
