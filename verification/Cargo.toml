[package]
name = "wg_gateway"
version = "0.1.0"
edition = "2021"
publish = false

[dependencies]
uuid = { version = "1", features = ["v4"] }
serde = { version = "1", features = ["derive"] }
serde_json = "1"
tokio = { version = "1", features = ["macros", "rt-multi-thread"] }
futures = "0.3"
warp = { version = "0.3", features = ["tls"] }
warp-reverse-proxy = "1"
dotenvy = "0.15"
