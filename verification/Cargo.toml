[package]
name = "agent_tools"
version = "0.1.0"
edition = "2021"
publish = false

[dependencies]
chrono = "*"
serde = { version = "*", features = ["derive"] }
serde_json = "*"
toml = "*"
glob = "*"
reqwest = { version = "*", default-features = false, features = ["blocking"] }
