[package]
name = "snake_engine"
version = "0.1.0"
edition = "2021"
publish = false

[dependencies]
rand = "=0.8.8"
pathfinding = "=4.16.0"
serde = { version = "=1.0.229", features = ["derive"] }
serde_json = "=1.0.154"
toml = "=1.1.8"
axum = "=0.6.20"
tokio = { version = "=1.54.1", features = ["macros", "rt-multi-thread"] }
tower = "=0.4.13"
tower-http = { version = "=0.4.4", features = ["add-extension"] }
rusqlite = "=0.40.2"
zstd = "=0.14.3"
nalgebra = { version = "=0.32.6", features = ["serde-serialize"] }
rayon = "=1.12.0"
pbr = "=1.1.1"
snake_tuner = "=0.5.3"
