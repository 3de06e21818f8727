[package]
name = "dundie_rewards"
version = "0.1.0"
edition = "2021"
publish = false

[dependencies]
chrono = "*"
clap = { version = "*", features = ["derive"] }
cli-table = "*"
csv = "*"
dotenvy = "*"
passwords = "*"
reqwest = { version = "*", default-features = false, features = ["blocking"] }
rpassword = "*"
serde = { version = "*", features = ["derive"] }
serde_json = "*"
slugify = "*"
