[package]
name = "ekko"
version = "0.1.0"
edition = "2021"
publish = false

[dependencies]
bytemuck = "1"
candle-core = { version = "0.9", default-features = false }
rayon = "1"
serde = { version = "1", features = ["derive"] }
sqlx = { version = "0.8", default-features = false, features = ["postgres", "runtime-tokio"] }
tch = "0.20"
tokio = { version = "1", features = ["full"] }
tokio-postgres = "0.7"
toml = "0.8"
zarrs = "0.21"
zarrs_filesystem = "0.2"
