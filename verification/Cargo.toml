[package]
name = "kickoff"
version = "0.1.0"
edition = "2021"
publish = false

[dependencies]
fuzzy-matcher = "*"
tokio = { version = "*", features = ["io-std", "io-util", "rt", "rt-multi-thread", "macros"] }
futures = "*"
exec = "*"
nix = { version = "*", features = ["process"] }
notify-rust = "*"
wl-clipboard-rs = "*"
log = "*"
