[package]
name = "yaaocr"
version = "0.1.0"
edition = "2021"
publish = false

[dependencies]
md-5 = "*"
scraper = "*"
htmd = "*"
clap = { version = "*", features = ["derive"] }
dotenv = "*"
reqwest = { version = "*", default-features = false, features = ["blocking", "cookies", "rustls-tls"] }
