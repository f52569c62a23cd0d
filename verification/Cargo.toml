[package]
name = "btc_header_chain"
version = "0.1.0"
edition = "2021"
publish = false

[dependencies]
bitcoin = "0.29.2"
cosmwasm-std = "1.5"
cw-storage-plus = "1.2"
cw-controllers = "1.1"
hex = "0.4"
prost = "0.11"
pbjson-types = "0.5"
serde = { version = "1", features = ["derive"] }
