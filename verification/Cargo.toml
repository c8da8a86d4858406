[package]
name = "spiral_rs"
version = "0.1.0"
edition = "2021"
publish = false

[dependencies]
uuid = { version = "1", features = ["v4"] }
actix-web = "4"
actix-cors = "*"
actix-files = "*"
futures = "0.3"
