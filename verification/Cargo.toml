[package]
name = "lightwatch"
version = "0.1.0"
edition = "2021"
publish = false

[dependencies]
axum = { version = "*", features = ["ws"] }
clap = { version = "4", features = ["derive"] }
hotpath = { version = "*", default-features = false, features = ["json"] }
proc-macro2 = "1"
proc-macro-crate = "3"
quote = "1"
serde = { version = "1", features = ["derive"] }
serde_json = "1"
syn = { version = "2", features = ["full"] }
tokio = { version = "1", features = ["full"] }
tracing = "0.1"
tracing-subscriber = { version = "0.3", features = ["env-filter"] }
