[package]
name = "require_by_string"
version = "0.1.0"
edition = "2021"
publish = false

[dependencies]
anyhow = "=1.0.104"
full_moon = { version = "2", features = ["luau"] }
memofs = "=0.4.0"
mlua = { version = "=0.12.2", features = ["luau"] }
rbx_dom_weak = "=4.2.0"
serde = { version = "=1.0.229", features = ["derive"] }
serde_json = "=1.0.154"
