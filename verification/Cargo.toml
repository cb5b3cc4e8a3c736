[package]
name = "ezpzdb"
version = "0.1.0"
edition = "2021"
publish = false

[dependencies]
clap = { version = "*", features = ["derive"] }
directories = "*"
rustyline = "*"
serde = { version = "*", features = ["derive"] }
serde_json = "*"
