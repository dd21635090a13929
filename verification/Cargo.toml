[package]
name = "inverted_index"
version = "0.1.0"
edition = "2021"
publish = false

[dependencies]
byteorder = "*"
fst = "*"
rayon = "*"
roaring = "*"
snap = "*"
time = "*"
uuid = { version = "*", features = ["v1"] }
