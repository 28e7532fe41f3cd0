[package]
name = "backer"
version = "0.1.0"
edition = "2021"
publish = false

[dependencies]
sha1 = "*"
kamadak-exif = "*"
image = { version = "*", default-features = false, features = ["jpeg", "png"] }
regex = "*"
walkdir = "*"
serde = { version = "*", features = ["derive"] }
serde_json = "*"
toml = "*"
path-slash = "*"
rayon = "*"
anyhow = "*"
