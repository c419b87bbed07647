[package]
name = "asm_processor"
version = "0.1.0"
edition = "2021"
publish = false

[dependencies]
regex = "1"
clap = { version = "4", features = ["derive"] }
thiserror = "1"
tempfile = "3"
uuid = { version = "1", features = ["v4"] }
