[package]
name = "async_kvdb"
version = "0.1.0"
edition = "2021"
publish = false

[dependencies]
form_urlencoded = "*"
async-channel = "*"
async-lock = "*"
async-trait = "*"
bytes = "*"
smol_str = "*"
serde = "*"
serde_json = "*"
prost = "*"
