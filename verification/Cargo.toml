[package]
name = "bag_crafting"
version = "0.1.0"
edition = "2021"
publish = false

[dependencies]
serde = { version = "1", features = ["derive"] }
serde-xml-rs = "*"
console_error_panic_hook = "*"
