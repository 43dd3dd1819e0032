[package]
name = "perfect_collaborative_text_editing"
version = "0.1.0"
edition = "2021"
publish = false

[dependencies]
arbitrary = "1"
itertools = "0.13"
libfuzzer-sys = "0.4"
