[package]
name = "vigb_decoder"
version = "0.1.0"
edition = "2021"
publish = false

[dependencies]
flate2 = "1"
clap = { version = "4", features = ["derive"] }
thiserror = "2"
