[package]
name = "serve_dir"
version = "0.1.0"
edition = "2021"
publish = false

[dependencies]
futures-io = "0.3"
futures-util = { version = "0.3", features = ["io"] }
http-types = "2"
log = "0.4"
