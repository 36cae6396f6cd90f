[package]
name = "foxwire"
version = "0.1.0"
edition = "2021"
publish = false

[dependencies]
aws-lc-rs = "1"
base64 = "0.22"
bytes = "1"
h2 = "0.4"
hmac = "0.12"
http = "1"
rand = "0.9"
rcgen = { version = "0.13", default-features = false, features = ["aws_lc_rs"] }
rustls-pki-types = "1"
serde_json = "1"
sha1 = "0.10"
sha2 = "0.10"
shadowsocks = { version = "1", default-features = false, features = ["aead-cipher", "aead-cipher-2022"] }
subtle = "2"
thiserror = "2"
tokio = { version = "1", features = ["io-util", "net", "rt", "macros", "sync", "time"] }
tokio-rustls = { version = "0.26", default-features = false, features = ["aws_lc_rs", "tls12"] }
tokio-util = "0.7"
zeroize = "1"
