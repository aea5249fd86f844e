[package]
name = "wini_assets"
version = "0.1.0"
edition = "2021"
publish = false

[dependencies]
regex = "=1.13.1"
serde = { version = "=1.0.229", features = ["derive"] }
serde_json = "=1.0.154"
toml = "=1.1.8"
walkdir = "=2.5.0"
log = "=0.4.34"
colog = "=1.4.0"
dotenvy = "=0.15.7"
tokio = { version = "=1.54.1", features = ["macros", "rt-multi-thread", "net", "time"] }
axum = "=0.8.9"
tower-http = { version = "=0.7.1", features = ["fs", "compression-gzip"] }
tower = "=0.5.3"
hyper = "=1.12.0"
http-body-util = "=0.1.5"
maud = { version = "=0.27.0", features = ["axum"] }
