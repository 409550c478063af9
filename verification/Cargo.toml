[package]
name = "collab"
version = "0.1.0"
edition = "2021"
publish = false

[dependencies]
ignore = "=0.4.33"
notify = "=8.2.0"
ctrlc = "=3.5.2"
libc = "=0.2.190"
serde = { version = "*", features = ["derive"] }
serde_json = "*"
