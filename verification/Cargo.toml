[package]
name = "clean_music"
version = "0.1.0"
edition = "2021"
publish = false

[dependencies]
infer = "*"
serde = { version = "*", features = ["derive"] }
serde_json = "*"
rodio = "*"
crossbeam-channel = "*"
lofty = "*"
tokio = { version = "*", features = ["full"] }
futures = "*"
chrono = "*"
dotenv = "*"
id3 = "*"
reqwest = "*"
musicbrainz_rs_nova = "*"
