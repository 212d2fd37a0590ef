[package]
name = "md-fmt"
version = "0.1.0"
edition = "2021"
publish = false

[dependencies]
comrak = { version = "*", default-features = false }
markdown = "1"
unicode-width = "0.2"
