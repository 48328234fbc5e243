[package]
name = "distrod"
version = "0.1.0"
edition = "2021"
publish = false

[dependencies]
regex = "=1.13.1"
systemd-parser = "=0.1.3"
scraper = "=0.29.0"
chrono = "=0.4.45"
anyhow = "=1.0.104"
nix = "=0.22.3"
structopt = "=0.3.26"
serde = { version = "=1.0.229", features = ["derive"] }
serde_json = "=1.0.154"
toml = "=0.5.11"
glob = "=0.3.4"
tempfile = "=3.27.0"
log = "=0.4.35"
tar = "=0.4.46"
flate2 = "=1.1.10"
xz2 = "=0.1.7"
procfs = "=0.18.0"
passfd = "=0.1.6"
once_cell = "=1.21.4"
tokio = { version = "=1.54.1", features = ["macros", "rt-multi-thread", "net", "io-util"] }
reqwest = { version = "=0.11.27", default-features = false, features = ["rustls-tls", "blocking"] }
indicatif = "=0.17.11"
colored = "=2.2.0"
tracing = "=0.1.44"
tracing-subscriber = "=0.3.23"
tracing-log = "=0.1.4"
strum = { version = "=0.21.0", features = ["derive"] }
async-trait = "=0.1.92"
env_logger = "=0.11.11"

[dev-dependencies]
nom = "=7.1.3"
