[package]
name = "azcp"
version = "0.4.2"
edition = "2021"
publish = false

[dependencies]
anyhow = "1"
base64 = "0.22"
bytes = "1"
chrono = "0.4"
clap = { version = "4", features = ["derive", "env"] }
dirs = "5"
globset = "0.4"
humansize = "2"
indicatif = "0.17"
libc = "0.2"
md-5 = "0.10"
mpi = "0.8"
percent-encoding = "2"
quick-xml = { version = "0.36", features = ["serialize"] }
rayon = "1"
reqwest = { version = "0.12", default-features = false, features = ["blocking", "rustls-tls"] }
serde = { version = "1", features = ["derive"] }
serde_json = "1"
thiserror = "1"
tokio = { version = "1", features = ["full"] }
tracing = "0.1"
tracing-subscriber = { version = "0.3", features = ["env-filter"] }
url = "2"
