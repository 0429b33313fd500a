[package]
name = "space"
version = "0.1.0"
edition = "2021"
publish = false

[dependencies]
clap = { version = "4", features = ["derive"] }
fs2 = "0.4"
futures = "0.3"
jwalk = "*"
log = "0.4"
open = "*"
serde = { version = "1", features = ["derive"] }
serde_json = "1"
tokio = { version = "1", features = ["rt-multi-thread", "macros", "time", "sync"] }
warp = "0.3"
