[package]
name = "novimem"
version = "0.1.0"
edition = "2021"
publish = false

[dependencies]
num-integer = "*"
image = "*"

[dev-dependencies]
serde_json = "*"
