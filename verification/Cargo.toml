[package]
name = "molybdenite"
version = "0.1.0"
edition = "2021"
publish = false

[dependencies]
base64 = "0.22"
bytes = "1"
getrandom = "0.2"
sha1_smol = { version = "1", features = ["std"] }
thiserror = "1"
tokio = { version = "1", features = ["io-util"] }
url = "2"
utf8parse = "0.2"
