[package]
name = "lmsr_market"
version = "0.1.0"
edition = "2021"
publish = false

[dependencies]
axum = "0.7"
hex = "0.4"
once_cell = "1"
serde = { version = "1", features = ["derive"] }
serde_repr = "0.1"
sha2 = "0.10"
tokio = { version = "1", features = ["rt-multi-thread", "macros", "net"] }
