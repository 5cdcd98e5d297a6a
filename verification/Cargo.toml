[package]
name = "hwpolicy"
version = "0.1.0"
edition = "2021"
publish = false

[dependencies]
bitcoin = "*"
ledger-apdu = "*"
ledger_bitcoin_client = "*"
