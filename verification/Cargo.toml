[package]
name = "cert-store"
version = "0.1.0"
edition = "2021"
publish = false

[dependencies]
anyhow = "=1.0.104"
clap = { version = "=4.6.7", features = ["derive"] }
libc = "=0.2.191"
rcgen = { version = "=0.14.10", features = ["x509-parser", "pem"] }
zeroizing-alloc = "=0.1.1"

[dev-dependencies]
x509-parser = { version = "=0.18.1", features = ["verify"] }
