[package]
name = "cw-blotto"
version = "0.1.0"
edition = "2021"
publish = false

[dependencies]
cosmwasm-schema = "=1.5.11"
cosmwasm-std = "=1.5.11"
cw-storage-plus = "=1.2.0"
cw-utils = "=1.0.3"
cw2 = "=1.1.2"
schemars = "=0.8.22"
serde = { version = "1", features = ["derive"] }
sylvia = "=0.8.1"
thiserror = "1"
