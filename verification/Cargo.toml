[package]
name = "combined_fields"
version = "0.1.0"
edition = "2021"
publish = false

[dependencies]
lance-core = { version = "*", default-features = false }
lance-select = { version = "*", default-features = false }
