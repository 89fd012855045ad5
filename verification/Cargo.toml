[package]
name = "qpick"
version = "0.1.0"
edition = "2021"
publish = false

[dependencies]
byteorder = "1"
fnv = "1"
fst = "0.3"
memmap = "0.7"
rayon = "1"
serde = { version = "1", features = ["derive"] }
serde_json = "1"
