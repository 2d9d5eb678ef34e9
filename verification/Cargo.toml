[package]
name = "ttt_match"
version = "0.1.0"
edition = "2021"
publish = false

[dependencies]
open_ttt_lib = "*"

[dev-dependencies]
serde_json = "*"
