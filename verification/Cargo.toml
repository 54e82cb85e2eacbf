[package]
name = "paracord"
version = "0.1.0"
edition = "2021"
publish = false

[dependencies]
boxcar = "*"
clashmap = "*"
foldhash = "*"
serde = "*"
