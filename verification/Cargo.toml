[package]
name = "bt_rust_dht"
version = "0.1.0"
edition = "2021"
publish = false

[dependencies]
async-trait = "0.1"
futures-util = "0.3"
log = "0.4"
rand = "0.8"
serde = { version = "1", features = ["derive"] }
serde_bencoded = "*"
serde_bytes = "0.11"
sha1 = "0.10"
thiserror = "1"
tokio = { version = "1", features = ["macros", "net", "rt", "rt-multi-thread", "sync", "time"] }
trust-dns-resolver = "0.22"
