[package]
name = "medulla"
version = "0.1.0"
edition = "2021"
publish = false

[dependencies]
anyhow = "=1.0.104"
chrono = { version = "=0.4.45", default-features = false, features = ["clock", "std"] }
clap = { version = "=4.6.7", default-features = false, features = ["std", "derive", "help", "usage", "error-context"] }
fastembed = { version = "=7.5.0", default-features = false }
fs2 = "=0.4.3"
ort = { version = "=2.0.0-rc.15", default-features = false }
polars = { version = "=0.55.2", default-features = false, features = ["lazy", "parquet", "json", "strings", "is_in", "temporal"] }
regex = "=1.13.1"
rust-stemmers = "=1.2.0"
serde = { version = "=1.0.229", features = ["derive"] }
serde_json = "=1.0.154"
sha2 = "=0.10.9"
tabled = { version = "=0.22.0", default-features = false, features = ["std", "derive"] }
