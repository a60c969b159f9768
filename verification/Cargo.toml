[package]
name = "dcsbridge"
version = "0.1.0"
edition = "2021"
publish = false

[dependencies]
sha2 = "0.10"
prost = "0.13"
prost-types = "0.13"
clap = { version = "4", features = ["derive"] }
