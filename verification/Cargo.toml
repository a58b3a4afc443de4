[package]
name = "actor_rs"
version = "0.1.0"
edition = "2021"
publish = false

[dependencies]
sha2 = "=0.10.9"
url = "=2.5.8"
regex = "=1.13.1"
rand = "=0.8.8"
serde = { version = "=1.0.229", features = ["derive"] }
tokio = { version = "1", default-features = false, features = ["signal", "rt"] }
