[package]
name = "serve_yew"
version = "0.1.0"
edition = "2021"
publish = false

[dependencies]
md5 = "0.7"
mime_guess = "2"
pathdiff = "0.2"
walkdir = "2"
tokio = { version = "1", features = ["fs", "io-util", "macros", "rt-multi-thread"] }
async-compression = { version = "0.4", features = ["tokio", "brotli", "gzip"] }
clap = { version = "4", features = ["derive"] }
tracing = "0.1"
tracing-subscriber = "0.3"
axum = "0.7"
http = "1"
bytes = "1"
futures = "0.3"
tower-service = "0.3"
rust-embed = "8"
