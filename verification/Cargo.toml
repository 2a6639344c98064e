[package]
name = "nodegraph"
version = "0.1.0"
edition = "2021"
publish = false

[dependencies]
petgraph = { version = "0.6", default-features = false, features = ["stable_graph"] }
serde = { version = "1", features = ["derive"] }
serde_json = "1"
