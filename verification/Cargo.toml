[package]
name = "bags_list"
version = "0.1.0"
edition = "2021"
publish = false

[dependencies]
sp-std = "*"
parity-scale-codec = { version = "*", features = ["derive"] }
frame-support = "*"
frame-election-provider-support = "*"
