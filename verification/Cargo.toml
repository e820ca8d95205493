[package]
name = "sender_meta"
version = "0.1.0"
edition = "2021"
publish = false

[dependencies]
actix-web = "4"
maxminddb = "*"
serde = { version = "*", features = ["derive"] }
