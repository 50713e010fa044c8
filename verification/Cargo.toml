[package]
name = "atlas_extract"
version = "0.1.0"
edition = "2021"
publish = false

[dependencies]
blake2 = "0.10"
serde_json = "1"
osmpbf = "0.3"
fxhash = "0.2"
geo = "*"
h3o = "*"
clap = { version = "4", features = ["derive"] }
