[package]
name = "album_mosaic"
version = "0.1.0"
edition = "2021"
publish = false

[dependencies]
image = "*"
rand = "*"
reqwest = "*"
tokio = { version = "*", features = ["macros", "rt-multi-thread"] }
futures = "*"
rspotify = "*"
