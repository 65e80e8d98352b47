[package]
name = "midi-sampler-to-m8"
version = "0.1.0"
edition = "2021"
publish = false

[dependencies]
anyhow = "1"
clap = { version = "4", features = ["derive"] }
cpal = "0.18"
csv = "1"
ctrlc = "3"
hound = "3"
midir = "0.11"
midly = "0.5"
rayon = "1"
serde = { version = "1", features = ["derive"] }
serde_json = "1"
tracing-subscriber = "0.3"
