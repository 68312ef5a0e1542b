[package]
name = "sdist_cache"
version = "0.1.0"
edition = "2021"
publish = false

[dependencies]
url = "2"
fxhash = "0.2"
zip = "0.6"
