[package]
name = "cribbage"
version = "0.1.0"
edition = "2021"
publish = false

[dependencies]
rand = "0.8"
inquire = "0.7"
