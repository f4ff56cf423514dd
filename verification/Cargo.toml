[package]
name = "lan_presence"
version = "0.1.0"
edition = "2021"
publish = false

[dependencies]
chrono = "*"
uuid = { version = "*", features = ["v4"] }
sha2 = "*"
serde = { version = "*", features = ["derive"] }
serde_json = "*"
toml = "*"
tokio = { version = "*", features = ["macros", "rt-multi-thread", "sync", "time"] }
actix-web = "*"
actix-files = "*"
actix-web-httpauth = "*"
reqwest = { version = "*", default-features = false, features = ["json", "rustls-tls"] }
clokwerk = "*"
prometheus = "*"
sysinfo = "*"
notify-rust = "*"
