[package]
name = "ircd"
version = "0.1.0"
edition = "2021"
publish = false

[dependencies]
ripemd = "0.1"
hex = "0.4"
serde = { version = "1", features = ["derive"] }
structopt = "0.3"
structopt-toml = "0.5"
