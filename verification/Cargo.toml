[package]
name = "check-updates"
version = "0.1.1"
edition = "2021"
publish = false

[dependencies]
semver = "1"
toml_edit = "0.22"
console = "0.15"
purl = "0.1"
cargo_metadata = "0.19"
crates-index = { version = "3", default-features = false, features = ["sparse"] }
http = "1"
reqwest = { version = "0.12", default-features = false, features = ["rustls-tls"] }
tokio = { version = "1", features = ["macros", "rt-multi-thread"] }
clap = { version = "4", features = ["derive"] }
clap_complete = "4"
indicatif = "0.17"
ctrlc = "3"
env_logger = "0.11"
log = "0.4"
thiserror = "2"
