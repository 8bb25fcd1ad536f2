[package]
name = "refer"
version = "0.1.0"
edition = "2021"
publish = false

[dependencies]
nom = "7"
pico-args = "0.5"
home = "0.5"
toml = "0.8"
inquire = { version = "0.7", features = ["editor"] }
