[package]
name = "cw20_enumerable"
version = "0.1.0"
edition = "2021"
publish = false

[dependencies]
cosmwasm-std = { version = "=0.14.1", features = ["iterator"] }
cw-storage-plus = { version = "=0.6.2", features = ["iterator"] }
cw20 = "=0.6.2"
