[package]
name = "oc_declare"
version = "0.1.0"
edition = "2021"
publish = false

[dependencies]
chrono = "*"
itertools = "*"
process_mining = "*"
rayon = "*"
serde = { version = "1", features = ["derive"] }
serde_json = "1"
