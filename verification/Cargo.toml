[package]
name = "unpac"
version = "0.1.0"
edition = "2021"
publish = false

[dependencies]
anyhow = "1"
byteorder = "1"
image = { version = "*", default-features = false, features = ["png"] }
miniserde = "*"
nom = "7"
rayon = "1"
serde = { version = "1", features = ["derive"] }
serde_json = "1"
structopt = "0.3"
thiserror = "1"
