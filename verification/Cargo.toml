[package]
name = "morphius"
version = "0.1.0"
edition = "2021"
publish = false

[dependencies]
itertools = "=0.15.0"
mexprp = { version = "=0.3.1", default-features = false }
rand = "=0.8.8"

[dev-dependencies]
regex = "=1.13.1"
