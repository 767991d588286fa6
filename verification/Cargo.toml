[package]
name = "atlas_packer"
version = "0.1.0"
edition = "2021"
publish = false

[dependencies]
rect_packer = "*"
image = { version = "*", default-features = false, features = ["png"] }
