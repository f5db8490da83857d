[package]
name = "moodle_session_ext"
version = "0.1.0"
edition = "2021"
publish = false

[dependencies]
regex = "*"
urlencoding = "*"
html-escape = "*"
email_address = "*"
tokio = { version = "*", features = ["macros", "rt-multi-thread", "sync", "time"] }
reqwest = { version = "*", default-features = false, features = ["json"] }
actix-web = { version = "*", default-features = false, features = ["macros"] }
actix-cors = "*"
serde = { version = "*", features = ["derive"] }
serde_json = "*"
serde_yaml = "*"
anyhow = "*"
