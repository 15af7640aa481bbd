[package]
name = "slashmail"
version = "0.1.0"
edition = "2021"
publish = false

[dependencies]
anyhow = "1"
clap = { version = "4", features = ["derive", "env"] }
clap_complete = "4"
clap_mangen = "0.2"
comfy-table = "7"
dirs = "5"
imap = "2"
indicatif = "0.17"
inquire = "0.7"
mailparse = "0.15"
native-tls = "0.2"
serde = { version = "1", features = ["derive"] }
toml = "0.8"
zeroize = "1"

[dev-dependencies]
regex = "1"
