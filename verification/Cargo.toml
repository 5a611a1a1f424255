[package]
name = "foo_lang"
version = "0.1.0"
edition = "2021"
publish = false

[dev-dependencies]
chumsky = { version = "0.9", default-features = false, features = ["std"] }
