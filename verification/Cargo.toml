[package]
name = "bash_interop"
version = "0.1.0"
edition = "2021"
publish = false

[dependencies]
bash-strings = "=0.1.0"
indexmap = "=2.14.2"
serde = { version = "=1.0.229", features = ["derive"] }
serde_json = "=1.0.154"
tokio = { version = "=1.54.1", features = ["rt", "net", "io-util", "sync", "macros", "time"] }
nix = { version = "=0.31.3", features = ["fs"] }
libc = "=0.2.191"
tempfile = "=3.27.0"
