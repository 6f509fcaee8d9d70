[package]
name = "pepper_plucker"
version = "0.1.0"
edition = "2021"
publish = false

[dependencies]
actix-web = "4"
bigdecimal = "0.4"
chrono = { version = "0.4", features = ["serde"] }
serde = { version = "1", features = ["derive"] }
tokio = { version = "1", features = ["macros", "rt-multi-thread"] }
