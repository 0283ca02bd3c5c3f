[package]
name = "micro_qr"
version = "0.1.0"
edition = "2021"
publish = false

[dependencies]
bitvec = "0.17"
reed-solomon = "0.2"
image = { version = "*", default-features = false, features = ["png"] }
imageproc = { version = "*", default-features = false }
