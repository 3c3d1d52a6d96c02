[package]
name = "dataloader"
version = "0.18.0"
edition = "2021"
publish = false

[dependencies]
tokio = { version = "1", default-features = false, features = ["sync", "rt"] }
async-std = { version = "1", default-features = false, features = ["std"] }
