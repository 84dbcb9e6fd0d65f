[package]
name = "colorgrad"
version = "0.1.0"
edition = "2021"
publish = false

[dependencies]
csscolorparser = { version = "=0.9.0", default-features = false, features = ["named-colors"] }
libm = "=0.2.16"
