[package]
name = "karkinos"
version = "0.1.0"
edition = "2021"
publish = false

[dependencies]
bk-tree = "*"
caseless = "*"
rand = "*"
serde = { version = "*", features = ["derive"] }
serde_json = "*"
unicode-normalization = "*"
unicode-segmentation = "*"
