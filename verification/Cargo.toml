[package]
name = "fit_kit"
version = "0.1.0"
edition = "2021"
publish = false

[dependencies]
fitparser = "=0.7.0"
itertools = "=0.15.0"
magnus = "=0.9.3"
