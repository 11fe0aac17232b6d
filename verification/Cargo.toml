[package]
name = "dicemind"
version = "0.1.0"
edition = "2021"
publish = false

[dependencies]
num = { version = "0.4", features = ["rand"] }
rand = "0.8"
smallvec = "1"
smol_str = "0.2"
serde = { version = "1", features = ["derive"] }
thiserror = "1"
clap = "4"
rustyline = "14"
rayon = "1"
textplots = "0.8"
human-panic = "2"
