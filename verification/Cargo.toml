[package]
name = "rustle"
version = "0.1.0"
edition = "2021"

[dependencies]
json = "=0.12.4"
