[package]
name = "blockchain"
version = "0.1.0"
edition = "2021"
publish = false

[dependencies]
sha2 = "0.9"
rand = "0.8"
num-bigint = { version = "0.4", features = ["rand"] }
borsh = "0.9"
serde = { version = "1", features = ["derive"] }
serde_json = "1"
openssl = "0.10"
actix-web = "3"
futures = "0.3"
async-std = "1"
