[package]
name = "midi_mapper"
version = "0.1.0"
edition = "2021"
publish = false

[dependencies]
midly = "0.5"
midir = "0.9"
fxhash = "0.2"
itertools = "*"
serde = { version = "1", features = ["derive"] }
serde_yaml = "0.9"
clap = { version = "4", features = ["derive"] }
config = "0.11"
lazy_static = "1"
better-panic = "0.3"
human-panic = "1"
