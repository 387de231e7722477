[package]
name = "trailrunner"
version = "0.1.0"
edition = "2021"
publish = false

[dependencies]
bincode = "1"
log = "0.4"
matchbox_socket = "*"
serde = { version = "1", features = ["derive"] }
