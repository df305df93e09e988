[package]
name = "magic_bitboard_finder"
version = "1.0.0"
edition = "2021"
publish = false

[dependencies]
clap = "4"
rand = { version = "0.8", features = ["small_rng"] }
