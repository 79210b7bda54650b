[package]
name = "scale"
version = "0.1.0"
edition = "2021"
publish = false

[dependencies]
bincode = "=1.3.3"
cgmath = "=0.17.0"
serde = { version = "=1.0.229", features = ["derive"] }
specs = { version = "=0.16.1", default-features = false, features = ["shred-derive", "specs-derive"] }
