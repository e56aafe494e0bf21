[package]
name = "zboot"
version = "0.1.0"
edition = "2021"
publish = false

[dependencies]
anyhow = "1"
clap = { version = "4", features = ["derive"] }
nix = { version = "0.29", features = ["fs", "mount", "poll", "process", "reboot", "term"] }
rustyline = "15"
sha2 = "0.10"
