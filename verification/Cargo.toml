[package]
name = "worktable"
version = "0.1.0"
edition = "2021"
publish = false

[dependencies]
async-trait = "0.1"
chrono = { version = "0.4", default-features = false, features = ["std"] }
ical = "*"
reqwest = { version = "0.12", default-features = false }
tokio = { version = "1", features = ["rt", "macros"] }
