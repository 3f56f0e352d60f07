[package]
name = "maruska"
version = "0.1.0"
edition = "2021"
publish = false

[dependencies]
hyper = "=0.10.16"
md5 = "=0.8.1"
