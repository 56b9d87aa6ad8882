[package]
name = "simpleedit"
version = "0.1.0"
edition = "2021"
publish = false

[dependencies]
regex = "1"
serde_json = { version = "1", features = ["preserve_order"] }
iced = { version = "0.12", default-features = false, features = ["highlighter", "advanced"] }
iced_aw = { version = "0.9", default-features = false, features = ["grid", "wrap"] }
