[package]
name = "qubit-codec-binary"
version = "0.3.0"
edition = "2021"
publish = false

[dependencies]
qubit-codec = "*"
qubit-io = "*"
thiserror = "*"

[dev-dependencies]
leb128 = "*"
