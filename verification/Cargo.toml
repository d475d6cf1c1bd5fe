[package]
name = "mine"
version = "0.1.0"
edition = "2021"
publish = false

[dependencies]
rand = "0.8"
sodiumoxide = "0.2"
clap = "4"
xdg = "2"
