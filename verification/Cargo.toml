[package]
name = "serir"
version = "0.1.0"
edition = "2021"
publish = false

[dependencies]
structopt = "0.3"
tokio = { version = "1", features = ["full"] }

[dev-dependencies]
rand = "0.8"
