[package]
name = "fotos"
version = "0.1.0"
edition = "2021"
publish = false

[dependencies]
blake3 = "*"
rusqlite = { version = "*", features = ["bundled"] }
rayon = "*"
xflags = "*"
