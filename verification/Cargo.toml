[package]
name = "harmonicon"
version = "0.1.0"
edition = "2021"
publish = false

[dependencies]
clap = { version = "*", features = ["derive"] }
colored = "*"
notify = "*"
pest = "*"
pest_derive = "*"
rodio = "*"
thiserror = "*"
