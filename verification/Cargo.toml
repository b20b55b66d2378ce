[package]
name = "kaleidoscope"
version = "0.1.0"
edition = "2021"
publish = false

[dependencies]
cranelift = "0.68"
cranelift-module = "0.68"
cranelift-simplejit = "0.68"
target-lexicon = "0.11"
