[package]
name = "kaboodle"
version = "0.1.4"
edition = "2021"
publish = false

[dependencies]
atty = "0.2"
bincode = "1.3"
bytes = { version = "1.4", features = ["serde"] }
clap = { version = "4", features = ["derive"] }
crc32fast = "1.3"
dotenvy = "0.15"
env_logger = "0.10"
if-addrs = "0.10"
log = "0.4"
mdns-sd = "0.5"
rand = "0.8"
rand_chacha = "0.3"
serde = "1"
serde_derive = "1"
sha256 = { version = "1.1", default-features = false }
socket2 = { version = "0.5", features = ["all"] }
thiserror = "1"
tokio = { version = "1", features = ["full"] }
uuid = { version = "1.3", features = ["v4"] }
