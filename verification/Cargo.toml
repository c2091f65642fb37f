[package]
name = "rustweek_anims"
version = "0.1.0"
edition = "2021"
publish = false

[dependencies]
vello = { version = "0.2", default-features = false }
parley = "0.1"
