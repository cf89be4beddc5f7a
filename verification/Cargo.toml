[package]
name = "inet_lifetimes"
version = "0.1.0"
edition = "2021"
publish = false

[dependencies]
nohash-hasher = "0.2"
highlight_error = "*"
TSPL = "*"
typed-arena = "2"
