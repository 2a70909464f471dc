[package]
name = "serial-repack"
version = "0.1.0"
edition = "2021"
publish = false

[dependencies]
anyhow = "1"
byteorder = "1"
clap = { version = "4", features = ["derive"] }
ctrlc = "3"
hex = "0.4"
serde = { version = "1", features = ["derive"] }
serialport = { version = "4", default-features = false }
thiserror = "2"
toml = "0.8"
