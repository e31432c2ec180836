[package]
name = "qoar"
version = "0.1.0"
edition = "2021"
publish = false

[dependencies]
amplify_derive = "*"
symphonia = { version = "0.5", default-features = false, features = ["pcm", "wav"] }
