[package]
name = "hibp_downloader"
version = "0.1.0"
edition = "2021"
publish = false

[dependencies]
anyhow = "1"
byteorder = "1"
bytes = "1"
clap = { version = "4", features = ["derive"] }
extsort = "0.4"
indicatif = "*"
reqwest = "*"
tokio = { version = "1", features = ["full"] }
tracing = "0.1"
tracing-indicatif = "*"
tracing-log = "*"
tracing-subscriber = { version = "*", features = ["env-filter"] }
