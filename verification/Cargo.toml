[package]
name = "legend_of_link"
version = "0.1.0"
edition = "2021"
publish = false

[dependencies]
url = "2"
html5ever = "0.26"
