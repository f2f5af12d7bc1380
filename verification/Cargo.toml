[package]
name = "horsetab"
version = "0.1.0"
edition = "2021"
publish = false

[dependencies]
anyhow = "=1.0.104"
chrono = "=0.4.45"
clap = { version = "=4.6.7", features = ["derive"] }
colored = "=2.2.0"
edit = "=0.1.5"
home = "=0.5.12"
reqwest = { version = "=0.12.28", default-features = false, features = ["blocking"] }
rouille = "=3.6.2"
tempfile = "=3.27.0"
