[package]
name = "music_index"
version = "0.1.0"
edition = "2021"
publish = false

[dependencies]
indicatif = "0.17"
metaflac = "=0.2.8"
mp3-duration = "=0.1.10"
mp4ameta = "=0.13.0"
rayon = "=1.12.0"
serde = { version = "=1.0.229", features = ["derive"] }
serde_json = "=1.0.154"
term_size = "=0.3.2"
uuid = { version = "=1.29.0", features = ["v4"] }
