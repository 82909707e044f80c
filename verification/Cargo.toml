[package]
name = "ics721_proxy"
version = "0.1.0"
edition = "2021"
publish = false

[dependencies]
cosmwasm-std = "=1.5.11"
cw2 = "=1.1.2"
cw721 = "=0.18.0"
cw-paginate-storage = "=2.4.2"
cw-storage-plus = "=1.2.0"
ics721-types = "=0.1.0"
serde = { version = "1", features = ["derive"] }
thiserror = "=1.0.69"
