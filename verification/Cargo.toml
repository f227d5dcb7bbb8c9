[package]
name = "bf_backends"
version = "0.1.0"
edition = "2021"
publish = false

[dependencies]
object = { version = "=0.40.0", features = ["write"] }
memmap2 = "=0.9.11"
cranelift = "=0.135.5"
target-lexicon = "*"
