[package]
name = "wordguess"
version = "0.1.0"
edition = "2021"
publish = false

[dependencies]
anyhow = "=1.0.104"
async-std = "=1.13.2"
bevy = { version = "=0.12.1", default-features = false, features = ["bevy_asset", "bevy_scene"] }
cargo_toml = "=0.14.1"
crossbeam = "=0.8.5"
futures = "=0.3.34"
rand = "=0.8.8"
structopt = "=0.3.26"
surf = "=1.0.3"
thiserror = "=1.0.69"
zip = { version = "=0.5.13", default-features = false, features = ["deflate"] }
