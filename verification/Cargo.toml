[package]
name = "torrent"
version = "0.1.0"
edition = "2021"
publish = false

[dependencies]
http = "*"
rand = "*"
rustls = { version = "*", default-features = false, features = ["ring", "std", "tls12"] }
rustls-native-certs = "*"
serde = { version = "*", features = ["derive"] }
sha1 = "*"
socket2 = { version = "*", features = ["all"] }
tokio = { version = "*", features = ["fs", "io-util", "macros", "net", "rt", "rt-multi-thread", "sync", "time"] }
tokio-rustls = { version = "*", default-features = false, features = ["ring", "tls12"] }
tracing = "*"
url = "*"
