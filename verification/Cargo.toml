[package]
name = "webserver"
version = "0.1.0"
edition = "2021"
publish = false

[dependencies]
mio = { version = "0.8", features = ["os-poll", "net"] }

[dev-dependencies]
regex = "1"
