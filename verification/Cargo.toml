[package]
name = "tsugiki"
version = "0.1.0"
edition = "2021"
publish = false

[dependencies]
html5ever = "=0.40.1"
indexmap = "=2.14.2"
tendril = "=0.4.3"
