[package]
name = "parler_tts"
version = "0.1.0"
edition = "2021"
publish = false

[dependencies]
candle-core = "0.8.4"
candle-nn = "0.8.4"
rand = "0.8.5"
