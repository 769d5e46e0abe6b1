[package]
name = "fuel_database"
version = "0.1.0"
edition = "2021"
publish = false

[dependencies]
primitive-types = { version = "=0.12.2", default-features = false }
bincode = "=1.3.3"
serde = { version = "=1.0.229", features = ["derive"] }
tai64 = "=4.1.0"
thiserror = "=1.0.69"
anyhow = "=1.0.104"
enum-iterator = "=1.5.0"
strum = "=0.24.1"
strum_macros = "=0.24.3"
fuel-core-types = { version = "=0.17.13", features = ["serde"] }
fuel-core-storage = "=0.17.13"
