[package]
name = "pda_to_cfg"
version = "0.1.0"
edition = "2021"
publish = false

[dependencies]
colored = "*"
pest = "*"
pest_derive = "*"
serde = { version = "*", features = ["derive"] }
serde_json = "*"
snafu = "*"
