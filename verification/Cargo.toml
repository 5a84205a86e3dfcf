[package]
name = "pipestream"
version = "0.1.0"
edition = "2021"
publish = false

[dependencies]
minicbor = { version = "*", features = ["alloc"] }
rusqlite = { version = "*", features = ["bundled"] }
rustix = { version = "*", features = ["fs"] }
sha2 = "0.10"

[dev-dependencies]
tempfile = "*"
