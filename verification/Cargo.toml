[package]
name = "abs_admin"
version = "0.1.0"
edition = "2021"
publish = false

[dependencies]
actix-web = "=4.18.1"
captcha = "=1.0.0"
futures-util = "=0.3.34"
log = "=0.4.34"
rbatis = "=4.9.8"
rbs = "=4.8.4"
serde = { version = "=1.0.229", features = ["derive"] }
serde_json = "=1.0.154"
tokio = { version = "=1.54.1", features = ["fs", "io-util", "rt", "macros"] }
