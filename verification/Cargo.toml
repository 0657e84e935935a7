[package]
name = "symbolica_atom"
version = "0.1.0"
edition = "2021"
publish = false

[dependencies]
bytes = "1"
byteorder = "1"
smartstring = "1"
bincode = { version = "2", default-features = false, features = ["std"] }
