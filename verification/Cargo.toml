[package]
name = "arc_gateway"
version = "0.1.0"
edition = "2021"
publish = false

[dependencies]
bytes = "=1.12.1"
regex = "=1.13.1"
hpack = "=0.3.0"
serde = { version = "=1.0.229", features = ["derive"] }
serde_json = "=1.0.154"
serde_yaml = "=0.9.34"
clap = { version = "=4.6.7", features = ["derive"] }
libc = "=0.2.191"
uuid = { version = "1", features = ["v4"] }
http = "1"
