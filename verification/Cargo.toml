[package]
name = "json_dom"
version = "0.1.0"
edition = "2021"
publish = false

[dependencies]
halfbrown = "*"
