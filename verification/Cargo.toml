[package]
name = "tcg_prof"
version = "0.1.0"
edition = "2021"
publish = false

[dependencies]
goblin = "*"
rustc-hash = "*"
memoffset = "*"
clap = { version = "4", features = ["derive"] }
