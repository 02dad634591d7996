[package]
name = "rproxy"
version = "0.1.0"
edition = "2021"
publish = false

[dependencies]
base64 = "=0.22.1"
bytes = "=1.12.1"
hmac = "=0.12.1"
http-body-util = "=0.1.5"
httparse = "=1.10.1"
hyper = { version = "=1.12.0", features = ["server", "http1"] }
hyper-util = { version = "=0.1.21", features = ["tokio"] }
io-uring = "=0.6.4"
ipnet = "=2.12.2"
lru = "=0.12.5"
monoio = "=0.2.4"
monoio-rustls = "=0.4.0"
nix = { version = "=0.26.4", default-features = false, features = ["sched", "mman", "process", "signal"] }
rand = "=0.8.8"
regex = "=1.13.1"
reqwest = { version = "=0.12.28", default-features = false, features = ["rustls-tls"] }
rustls = "=0.23.46"
rustls-native-certs = "=0.8.5"
rustls-pemfile = "=2.2.0"
serde = { version = "=1.0.229", features = ["derive"] }
serde_yaml = "=0.9.34"
sha2 = "=0.10.9"
socket2 = { version = "=0.5.10", features = ["all"] }
tokio = { version = "=1.54.1", features = ["full"] }
tracing = "=0.1.44"
tracing-subscriber = { version = "=0.3.23", features = ["env-filter", "json"] }
url = "=2.5.8"
