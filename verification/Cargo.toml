[package]
name = "jpegview"
version = "0.1.0"
edition = "2021"
publish = false

[dependencies]
sha2 = "=0.10.9"
miniz_oxide = "=0.8.9"
threadpool = "=1.8.1"

[dev-dependencies]
bincode = "=1.3.3"
serde = "=1.0.229"
