[package]
name = "siteprobe"
version = "0.1.0"
edition = "2021"
publish = false

[dependencies]
base64 = "0.22"
clap = { version = "4", features = ["derive"] }
console = "0.15"
csv = "1"
futures = "0.3"
indicatif = "0.17"
once_cell = "1"
prettytable-rs = { version = "0.10", default-features = false }
quick-xml = "0.37"
rand = "0.9"
reqwest = { version = "0.12", default-features = false }
serde = { version = "1", features = ["derive"] }
serde_json = "1"
tokio = { version = "1", features = ["rt-multi-thread", "macros", "sync", "time"] }
unicode-segmentation = "1"
url = "2"
