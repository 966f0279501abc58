[package]
name = "cp2"
version = "0.1.0"
edition = "2021"
publish = false

[dependencies]
blake3 = "=1.8.7"
glob = "=0.3.4"
jwalk = "=0.9.0"
libc = "=0.2.191"
lnk = { version = "=0.6.4", features = ["binwrite", "unstable-save"] }
notify = "=8.2.1"
num_cpus = "=1.17.0"
postcard = { version = "=1.1.3", features = ["use-std"] }
serde = { version = "=1.0.229", features = ["derive"] }
soft-canonicalize = "=0.5.6"
tokio = { version = "=1.54.1", features = ["full"] }
tracing = "=0.1.44"
typed-path = "=0.13.0"

[dev-dependencies]
tempfile = "=3.27.0"
