[package]
name = "tag_stats"
version = "0.1.0"
edition = "2021"
publish = false

[dependencies]
rustc-hash = "*"
glob = "*"
indicatif = "*"
rayon = "*"
serde = { version = "*", features = ["derive"] }
serde-aux = "*"
serde_json = "*"
