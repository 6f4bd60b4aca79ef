[package]
name = "locallink"
version = "0.1.0"
edition = "2021"
publish = false

[dependencies]
local-ip-address = "0.6"
serde = { version = "1", features = ["derive"] }
tokio = { version = "1", features = ["macros", "net", "rt", "time"] }
