[package]
name = "laifanyi_core"
version = "3.0.0"
edition = "2021"
publish = false

[dependencies]
axum = "0.7"
base64 = "=0.22.1"
calamine = { version = "=0.26.1", features = ["dates"] }
chrono = { version = "=0.4.45", default-features = false, features = ["std"] }
fs2 = "0.4"
libc = "0.2"
open = "5"
serde = { version = "1", features = ["derive"] }
serde_json = "1"
tokio = { version = "1", features = ["rt-multi-thread", "net"] }
zip = { version = "~2.4", default-features = false, features = ["deflate"] }
