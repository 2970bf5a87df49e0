[package]
name = "literal_constraints"
version = "0.1.0"
edition = "2021"
publish = false

[dependencies]
anyhow = "1"
openssl-probe = "0.1"
serde = { version = "1", features = ["derive"] }
thiserror = "1"
url = "2"
