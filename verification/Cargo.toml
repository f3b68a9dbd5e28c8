[package]
name = "cwc"
version = "0.1.0"
edition = "2021"
publish = false

[dependencies]
clap = { version = "4", features = ["derive"] }
colored = "2"
pest = "2"
pest_derive = "2"
