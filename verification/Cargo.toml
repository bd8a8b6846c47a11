[package]
name = "bark"
version = "0.1.0"
edition = "2021"
publish = false

[dependencies]
uuid = { version = "1", features = ["v4"] }
rusqlite = "*"
clap = { version = "4", features = ["derive"] }
directories = "*"
