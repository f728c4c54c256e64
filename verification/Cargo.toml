[package]
name = "stream_server"
version = "0.1.0"
edition = "2021"
rust-version = "1.95"
publish = false

[dependencies]
anyhow = "=1.0.104"
async-trait = "=0.1.92"
async_zip = { version = "=0.0.19", features = ["tokio", "deflate"] }
axum = "=0.8.9"
axum-server = { version = "=0.8.0", default-features = false, features = ["tls-rustls-no-provider"] }
chrono = "=0.4.45"
dashmap = "=6.2.1"
dirs = "=6.0.0"
flate2 = "=1.1.10"
fs4 = "=0.13.1"
getrandom = "=0.3.4"
hex = "=0.4.3"
regex = "=1.13.1"
serde = { version = "=1.0.229", features = ["derive"] }
serde_json = "=1.0.154"
sevenz-rust2 = "=0.24.2"
subtle = "=2.6.1"
sysinfo = "=0.37.2"
tar = "=0.4.46"
tempfile = "=3.27.0"
tokio = { version = "=1.54.1", features = ["full"] }
tokio-rustls = { version = "=0.26.6", default-features = false, features = ["ring", "tls12"] }
tokio-util = { version = "=0.7.20", features = ["compat", "io"] }
tower-http = { version = "0.6", features = ["cors", "trace"] }
tracing = "=0.1.44"
tracing-appender = "=0.2.5"
tracing-subscriber = { version = "=0.3.23", features = ["env-filter", "json"] }
url = "=2.5.8"
urlencoding = "=2.1.3"
webpki-roots = "=1.0.10"
