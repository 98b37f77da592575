[package]
name = "fvp_rs"
version = "0.1.0"
edition = "2021"
publish = false

[dependencies]
byteorder = "1"
encoding_rs = "0.8"
thiserror = "2"
palc = "*"
path-absolutize = "3"
tap = "1"
