[package]
name = "eth_rpc_client"
version = "0.1.0"
edition = "2021"
publish = false

[dependencies]
anyhow = "1"
async-trait = "0.1"
axum = "0.7"
bytes = "1"
candid = "0.10"
futures = "0.3"
ic-canister-log = "0.2"
ic-cdk = "0.13"
mockall = "0.12"
serde = { version = "1", features = ["derive"] }
