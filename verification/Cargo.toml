[package]
name = "nf-energy-monitor-parser"
version = "0.1.0"
edition = "2021"
publish = false

[dependencies]
scraper = "*"
influxdb2 = "*"
itertools = "*"
reqwest = { version = "0.11", default-features = false }
tokio = { version = "1", features = ["macros", "rt", "time"] }
clap = { version = "4", features = ["derive", "env"] }
futures = "0.3"
tracing = "0.1"
tracing-subscriber = "0.3"
