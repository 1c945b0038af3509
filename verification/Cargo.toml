[package]
name = "log_producer"
version = "0.1.0"
edition = "2021"
publish = false

[dependencies]
base64 = "*"
chrono = "*"
digest = "*"
hmac = "*"
md-5 = "*"
reqwest = { version = "*", default-features = false }
sha1 = "*"
thiserror = "*"
url = "*"
