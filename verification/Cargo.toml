[package]
name = "chessviz2"
version = "0.1.0"
edition = "2021"
publish = false

[dependencies]
petgraph = "0.6"
shakmaty = "0.27"
serde = { version = "1", features = ["derive"] }
bincode = "1"
glam = { version = "0.29", features = ["serde"] }
rayon = "1"
