[package]
name = "sooboost"
version = "0.1.0"
edition = "2021"
publish = false

[dependencies]
rand_xoshiro = "*"
arrow = { version = "*", default-features = false }
arrow-csv = "*"
serde = { version = "1", features = ["derive"] }
serde_json = "1"
thiserror = "*"
rayon = "*"
