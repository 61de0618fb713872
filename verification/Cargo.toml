[package]
name = "batch_loader"
version = "0.1.0"
edition = "2021"
publish = false

[dependencies]
actix-web = { version = "4", default-features = false, features = ["macros"] }
anyhow = "1"
async-graphql = { version = "7", features = ["dataloader"] }
async-graphql-actix-web = "7"
tokio = { version = "1", features = ["time", "rt", "macros"] }
