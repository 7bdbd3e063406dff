[package]
name = "phrase_index"
version = "0.1.0"
edition = "2021"
publish = false

[dependencies]
bincode = "1"
fst = "0.4"
highway = "*"
memmap = "0.7"
osmpbf = "*"
xorf = { version = "*", features = ["serde"] }
