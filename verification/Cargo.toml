[package]
name = "alliance_lst"
version = "0.1.0"
edition = "2021"
publish = false

[dependencies]
cosmwasm-std = { version = "=1.5.11", features = ["staking", "stargate"] }
astroport = "=2.9.5"
serde = { version = "=1.0.229", features = ["derive"] }
