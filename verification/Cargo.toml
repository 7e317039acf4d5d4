[package]
name = "lmtht"
version = "0.1.0"
edition = "2021"
publish = false

[dependencies]
byteorder = "1"
highway = "*"
sha2 = "*"
protobuf = "2.22.1"
