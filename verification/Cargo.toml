[package]
name = "bittorrent"
version = "0.1.0"
edition = "2021"
publish = false

[dependencies]
bytes = "=1.12.1"
rand = "=0.8.8"
sha1 = "=0.10.7"
url = "=2.5.8"
tokio = { version = "=1.54.1", features = ["full"] }
tokio-util = { version = "=0.7.20", features = ["codec"] }
futures-util = { version = "=0.3.34", features = ["sink"] }
reqwest = "=0.11.27"
serde = { version = "=1.0.229", features = ["derive"] }
serde_bencode = "=0.2.4"
thiserror = "=1.0.69"
chrono = "=0.4.45"
crossterm = "=0.27.0"
ctrlc = "=3.5.2"
