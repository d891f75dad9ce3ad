[package]
name = "storage_changeset"
version = "0.1.0"
edition = "2021"
publish = false

[dependencies]
anyhow = "=1.0.104"
async-stream = "=0.3.6"
bytes = "=1.12.1"
futures-core = "=0.3.34"
