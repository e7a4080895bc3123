[package]
name = "multicats"
version = "0.1.0"
edition = "2021"
publish = false

[dependencies]
anyhow = "1"
clap = { version = "4", features = ["derive"] }
env_logger = "0.11"
getifaddrs = "*"
heapless = { version = "0.8", features = ["serde"] }
log = "0.4"
postcard = { version = "1", default-features = false, features = ["alloc"] }
serde = { version = "1", features = ["derive"] }
socket2 = "0.6"
tokio = { version = "1", features = ["rt", "macros", "net", "fs", "io-util", "sync", "time"] }
tokio-util = "0.7"
twox-hash = { version = "2", default-features = false, features = ["xxhash3_64"] }
