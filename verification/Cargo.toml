[package]
name = "pulseplex"
version = "0.1.0"
edition = "2021"
publish = false

[dependencies]
anyhow = "1"
async-trait = "0.1"
byteorder = "1.5"
clap = { version = "4", features = ["derive"] }
crossbeam-channel = "0.5"
crossterm = "0.28"
ctrlc = "3"
dialoguer = "0.11"
directories = "5"
hex = "0.4"
mdns-sd = "0.11"
midir = "0.10"
notify = "6"
ratatui = "0.29"
reqwest = { version = "0.12", default-features = false, features = ["json", "blocking", "rustls-tls"] }
rustls = { version = "0.23", default-features = false, features = ["ring", "std", "tls12", "logging"] }
rustls-pemfile = "2"
rustls-pki-types = "1"
semver = "1"
serde = { version = "1", features = ["derive"] }
serde_json = "1"
spin_sleep = "1"
thiserror = "1"
tokio = { version = "1", features = ["rt", "rt-multi-thread", "macros", "net", "sync", "time"] }
toml = "0.8"
toml_edit = "0.22"
tracing = "0.1"
tracing-appender = "0.2"
tracing-subscriber = { version = "0.3", features = ["env-filter"] }
webrtc-dtls = "0.10"
