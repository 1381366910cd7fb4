[package]
name = "mcparse"
version = "0.1.0"
edition = "2021"
publish = false

[dependencies]
regex = "*"
miette = "*"
owo-colors = "*"
thiserror = "*"
