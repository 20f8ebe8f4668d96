[package]
name = "color_chain"
version = "0.1.0"
edition = "2021"
publish = false

[dependencies]
fxhash = "0.2"
smallvec = "1"
debruijn = "0.3"
