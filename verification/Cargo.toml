[package]
name = "haystack_embedded"
version = "0.1.0"
edition = "2021"
publish = false

[dependencies]
libflate = "*"
rand = "*"
rayon = "*"
serde = { version = "*", features = ["derive"] }
serde_json = "*"
uuid = { version = "*", features = ["v4"] }
