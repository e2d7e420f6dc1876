[package]
name = "toml-maid"
version = "0.1.0"
edition = "2021"
publish = false

[dependencies]
colored = "2"
glob = "0.3"
ignore = "0.4"
serde = { version = "1", features = ["derive"] }
structopt = "0.3"
toml = "0.5"
toml_edit = "0.19"
