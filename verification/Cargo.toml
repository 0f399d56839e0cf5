[package]
name = "forall_toolkit"
version = "0.1.0"
edition = "2021"
publish = false

[dependencies]
regex = "1"
sha2 = "0.10"
reqwest = { version = "0.12", default-features = false, features = ["json"] }
serde = { version = "1", features = ["derive"] }
serde_json = "1"
serde_yaml = "0.9"
tokio = { version = "1", features = ["sync"] }
walkdir = "2"
chrono = { version = "0.4", default-features = false, features = ["serde", "clock"] }
schemars = { version = "0.8", features = ["chrono"] }
thiserror = "2"
