[package]
name = "rooney"
version = "0.1.0"
edition = "2021"
publish = false

[dependencies]
rand = { version = "=0.10.3", features = ["chacha"] }
csv = "=1.4.0"
serde = { version = "=1.0.229", features = ["derive"] }
plotters = { version = "=0.3.7", default-features = false, features = ["bitmap_backend", "bitmap_encoder", "area_series", "line_series"] }
kraken-async-rs = "=0.16.0"
tokio = { version = "=1.54.1", features = ["macros", "rt-multi-thread", "sync"] }
