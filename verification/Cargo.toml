[package]
name = "fitgirl_auto_downloader_mori"
version = "0.1.0"
edition = "2021"
publish = false

[dependencies]
regex = "1"
scraper = "*"
url = "2"
base64 = "0.22"
bs58 = "0.5"
pbkdf2 = "0.12"
sha2 = "0.10"
aes = "0.8"
aes-gcm = "0.10"
typenum = "1"
flate2 = "1"
serde_json = "1"
reqwest = { version = "0.12", default-features = false, features = ["blocking", "rustls-tls"] }
zip = { version = "2", default-features = false, features = ["deflate"] }
colored = "2"
dialoguer = "0.11"
arboard = { version = "3", default-features = false }
chrono = "0.4"
indicatif = "0.17"
open = "5"
