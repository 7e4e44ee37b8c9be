[package]
name = "piko_cli"
version = "0.1.0"
edition = "2021"
publish = false

[dependencies]
byteorder = "*"
clap = "*"
linefeed = "*"

[dev-dependencies]
serde_cbor = "*"
