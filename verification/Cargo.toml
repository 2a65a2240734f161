[package]
name = "wifi_densepose_cathedral"
version = "0.1.0"
edition = "2021"
publish = false

[dependencies]
cathedral-probe = "*"
