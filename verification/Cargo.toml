[package]
name = "trenchcraft"
version = "0.1.0"
edition = "2021"
publish = false

[dependencies]
clap = { version = "=4.6.7", features = ["derive"] }
fastnbt = "=2.6.3"
flate2 = "=1.1.10"
rustmatica = { version = "=0.5.2", default-features = false }
mcdata = "=0.4.0"
