[package]
name = "templates"
version = "0.1.0"
edition = "2021"
publish = false

[dependencies]
regex = "*"
directories = "*"
opener = "*"
text_io = "*"
walkdir = "*"
zip = "*"
