[package]
name = "pinpointer"
version = "0.1.0"
edition = "2021"
publish = false

[dependencies]
axum = "=0.6.20"
geo = { version = "=0.33.1", default-features = false, features = ["use-serde"] }
geojson = "=1.0.0"
plotters = { version = "=0.3.7", default-features = false, features = ["bitmap_backend", "bitmap_encoder", "line_series"] }
reqwest = { version = "=0.11.27", default-features = false, features = ["blocking", "rustls-tls"] }
serde = { version = "=1.0.229", features = ["derive"] }
serde_json = { version = "=1.0.154", features = ["float_roundtrip"] }
tokio = { version = "=1.54.1", features = ["macros", "rt-multi-thread"] }
