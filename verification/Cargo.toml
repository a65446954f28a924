[package]
name = "move_pallet"
version = "0.1.0"
edition = "2021"
publish = false

[dependencies]
serde = { version = "=1.0.229", features = ["derive"] }
jsonrpsee = { version = "=0.26.1", features = ["server-core", "macros"] }
