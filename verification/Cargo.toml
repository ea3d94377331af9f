[package]
name = "auth_tickets"
version = "0.1.0"
edition = "2021"
publish = false

[dependencies]
steamworks = "*"
tokio = { version = "*", features = ["sync", "time"] }
