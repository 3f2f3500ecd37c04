[package]
name = "system_one"
version = "0.1.0"
edition = "2021"
publish = false

[dependencies]
arrow = { version = "53", default-features = false }
async-trait = "0.1"
chrono = { version = "0.4", features = ["serde"] }
futures = "0.3"
heck = "0.5"
hex = "0.4"
parquet = { version = "53", default-features = false, features = ["arrow"] }
proc-macro2 = "1"
quote = "1"
rand = "0.8"
regex = "1"
reqwest = { version = "0.12", default-features = false, features = ["json", "rustls-tls"] }
serde = { version = "1", features = ["derive"] }
serde_json = "1"
sha2 = "0.10"
syn = { version = "2", features = ["full", "extra-traits"] }
thiserror = "1"
tokio = { version = "1", features = ["full"] }
