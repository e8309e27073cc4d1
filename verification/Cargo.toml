[package]
name = "versioned_data_engine"
version = "0.1.0"
edition = "2021"
publish = false

[dependencies]
axum = "=0.8.9"
serde = { version = "=1.0.229", features = ["derive"] }
serde_json = { version = "=1.0.148", features = ["arbitrary_precision"] }
tokio = { version = "=1.54.1", features = ["macros", "net", "rt-multi-thread", "signal"] }
