[package]
name = "html_dom_sink"
version = "0.1.0"
edition = "2021"
publish = false

[dependencies]
html5ever = "*"
