[package]
name = "svt"
version = "0.1.0"
edition = "2021"
publish = false

[dependencies]
anyhow = "1"
xch = "*"
native-windows-derive = "*"
native-windows-gui = { version = "*", features = ["flexbox"] }
serde = { version = "1", features = ["derive"] }
serde_json = "1"
