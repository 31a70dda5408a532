[package]
name = "preopener"
version = "0.1.0"
edition = "2021"
publish = false

[dependencies]
uuid = { version = "=1.29.0", features = ["v4"] }
mime_guess = "=2.0.5"
dir-view = "=0.2.0"

[dev-dependencies]
tempfile = "=3.27.0"
camino = "=1.2.6"
