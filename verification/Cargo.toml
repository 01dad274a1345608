[package]
name = "statustracker"
version = "0.1.0"
edition = "2021"
publish = false

[dependencies]
color-eyre = "0.6"
dotenvy = "0.15"
futures = "0.3"
itertools = "0.10"
mongodb = "2"
once_cell = "1"
rayon = "1"
reqwest = { version = "0.11", default-features = false, features = ["json", "rustls-tls"] }
rmp-serde = "1"
rocket = "0.5"
serde = { version = "1", features = ["derive"] }
serde-big-array = "0.5"
serde_json = "1"
smol_str = { version = "0.2", features = ["serde"] }
tokio = { version = "1", features = ["full"] }
toml = "0.5"
tracing = "0.1"
tracing-subscriber = { version = "0.3", features = ["env-filter"] }
url = { version = "2", features = ["serde"] }
uuid = { version = "1", features = ["serde", "v4"] }
