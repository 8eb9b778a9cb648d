[package]
name = "routrs"
version = "0.1.0"
edition = "2021"
publish = false

[dependencies]
flate2 = "=1.1.10"
lazy_static = "=1.5.1"
rayon = "=1.12.0"
serde = { version = "=1.0.229", features = ["derive"] }
serde_json = "=1.0.154"
routrs_maritime_dataset = "=0.1.0"
routrs_highways_dataset = "=0.1.0"
routrs_railways_dataset = "*"
