[package]
name = "steam_wrapper"
version = "0.1.0"
edition = "2021"
publish = false

[dependencies]
anyhow = "1"
evdev = { version = "0.13", features = ["tokio"] }
futures-util = "0.3"
indexmap = { version = "2", features = ["serde"] }
json5 = "0.4"
serde = { version = "1", features = ["derive"] }
tokio = { version = "1", features = ["full"] }
zbus = "5"
