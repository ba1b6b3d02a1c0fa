[package]
name = "lucky_star"
version = "0.1.0"
edition = "2021"
publish = false

[dependencies]
clap = { version = "=4.6.7", features = ["derive"] }
image = { version = "=0.25.10", default-features = false, features = ["jpeg", "png"] }
imageproc = { version = "=0.27.0", default-features = false }
indicatif = "=0.18.6"
ndarray = "0.15"
rand = "=0.10.3"
rustronomy-fits = "=0.2.0"
serde = { version = "=1.0.229", features = ["derive"] }
serde_json = "=1.0.154"
vector2d = "=3.1.1"
