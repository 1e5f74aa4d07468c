[package]
name = "synth_core"
version = "0.1.0"
edition = "2021"
publish = false

[dependencies]
rand = "0.8"
serde = { version = "1", features = ["derive"] }
serde_json = "1"
anyhow = "1"
clap = { version = "4", features = ["derive"] }
hound = "3"
itertools = "0.12"
num-traits = "0.2"
log = "0.4"
arc-swap = "1"
