[package]
name = "abuild_reusesig"
version = "0.1.0"
edition = "2021"
publish = false

[dependencies]
libflate = "*"
structopt = "*"
env_logger = "*"

[dev-dependencies]
tar = "*"
