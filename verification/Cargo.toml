[package]
name = "quest_board"
version = "0.1.0"
edition = "2021"
publish = false

[dependencies]
axum = "*"
nanoid = "*"
password-auth = "*"
reqwest = { version = "*", default-features = false, features = ["json"] }
serde = { version = "*", features = ["derive"] }
serde_tuple = "*"
tokio = { version = "*", features = ["macros", "net", "rt-multi-thread", "sync"] }
