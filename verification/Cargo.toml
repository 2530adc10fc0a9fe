[package]
name = "flatbak"
version = "0.1.0"
edition = "2021"
publish = false

[dependencies]
anyhow = "1"
async-channel = "2"
chrono = "0.4"
crc32fast = "1"
gtk4 = "*"
libadwaita = "*"
serde = { version = "1", features = ["derive"] }
sha2 = "*"
tar = "0.4"
thiserror = "*"
toml = "*"
zstd = "*"
