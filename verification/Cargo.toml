[package]
name = "geotag"
version = "0.1.0"
edition = "2021"
publish = false

[dependencies]
exempi = "*"
docopt = "*"
serde = "*"
serde_derive = "*"
