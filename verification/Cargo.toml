[package]
name = "symbolica"
version = "0.1.0"
edition = "2021"
publish = false

[dependencies]
ahash = "0.8"
byteorder = "1"
bytes = "1"
rand = "0.8"
rug = "1"
smallvec = "1"
wide = "0.7"
