[package]
name = "rustysd"
version = "0.1.0"
edition = "2021"
publish = false

[dependencies]
chrono = "0.4"
clap = { version = "4", features = ["derive"] }
fern = "0.6"
libc = "0.2"
log = "0.4"
nix = "0.26"
serde = { version = "1", features = ["derive"] }
serde_json = "1"
shmemfdrs = "*"
signal-hook = "0.3"
toml = "0.5"
which = "4"
