[package]
name = "imbrut"
version = "0.1.0"
edition = "2021"
publish = false

[dependencies]
http = "=1.5.0"
reqwest = { version = "=0.13.5", default-features = false, features = ["blocking", "form"] }
config = { version = "=0.15.27", default-features = false, features = ["yaml"] }
indicatif = "=0.18.6"
