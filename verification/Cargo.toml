[package]
name = "betting_pool"
version = "0.1.0"
edition = "2021"
publish = false

[dependencies]
sha2 = "=0.9.9"
candid = "=0.8.4"
ic-cdk = "=0.6.10"
ic-cdk-macros = "=0.6.10"
serde = { version = "=1.0.229", features = ["derive"] }
