[package]
name = "classroom_grades"
version = "0.1.0"
edition = "2021"
publish = false

[dependencies]
dirs = "5"
reqwest = { version = "0.12", default-features = false, features = ["json", "rustls-tls"] }
serde = { version = "1", features = ["derive"] }
tokio = { version = "1", features = ["full"] }
yup-oauth2 = "11"
