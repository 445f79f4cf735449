[package]
name = "uint256_precompile"
version = "0.1.0"
edition = "2021"
publish = false

[dependencies]
num = "0.4"
serde = { version = "1", features = ["derive"] }
p3-air = "*"
p3-field = "*"
p3-matrix = "*"
sp1-derive = "*"
