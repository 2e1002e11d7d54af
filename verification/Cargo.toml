[package]
name = "lock"
version = "0.1.0"
edition = "2021"
publish = false

[dependencies]
aes-gcm = "=0.10.3"
argon2 = "=0.5.3"
hex = "=0.4.3"
base64 = "=0.22.1"
rand = "=0.9.5"
zeroize = "=1.9.1"
anyhow = "=1.0.104"
clap = { version = "=4.6.7", features = ["derive", "env"] }
colored = "=2.2.0"
indicatif = "=0.17.11"
octocrab = "=0.44.1"
tokio = { version = "=1.54.1", features = ["rt-multi-thread"] }
rayon = "=1.12.0"
rpassword = "=7.5.4"
serde_json = "=1.0.154"
tempfile = "=3.27.0"
walkdir = "=2.5.0"
