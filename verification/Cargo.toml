[package]
name = "highscore"
version = "0.1.0"
edition = "2021"
publish = false

[dependencies]
rust-argon2 = "*"
rand = "*"
uuid = { version = "*", features = ["v4"] }
chrono = "*"
rpassword = "*"
