[package]
name = "qsh"
version = "1.0.0"
edition = "2021"
publish = false

[dependencies]
anyhow = "1"
clap = { version = "4", features = ["derive"] }
dirs = "6"
libc = "0.2"
nix = { version = "0.30", features = ["fs", "hostname", "process", "signal", "term", "user"] }
postcard = { version = "1", default-features = false, features = ["use-std"] }
quinn = { version = "0.11", default-features = false, features = ["runtime-tokio", "rustls-ring"] }
rcgen = "0.13"
rustls = { version = "0.23", default-features = false, features = ["ring", "std"] }
rustls-pemfile = "2"
serde = { version = "1", features = ["derive"] }
sha2 = "0.10"
time = "0.3"
tokio = { version = "1", features = ["full"] }
toml = "0.8"
x509-parser = "0.17"

[dev-dependencies]
tempfile = "3"
