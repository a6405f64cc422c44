[package]
name = "wget_mirror"
version = "0.1.0"
edition = "2021"
publish = false

[dependencies]
url = "*"
scraper = "*"
reqwest = { version = "*", default-features = false, features = ["blocking"] }
clap = "*"
chrono = "*"
indicatif = "*"
