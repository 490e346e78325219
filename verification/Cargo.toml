[package]
name = "bingus"
version = "0.1.0"
edition = "2021"
publish = false

[dependencies]
anyhow = "1"
brotli = "8"
colog = "1"
fastrand = "2"
log = "0.4"
reqwest = "0.12"
rmp-serde = "1"
serde = { version = "1", features = ["derive"] }
tokio = { version = "1", features = ["full"] }
twilight-gateway = "0.16"
twilight-http = "0.16"
twilight-interactions = "0.16"
twilight-model = "0.16"
