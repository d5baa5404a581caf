[package]
name = "harmonicon"
version = "0.1.0"
edition = "2021"
publish = false

[dependencies]
rand = "=0.9.5"
fluent-langneg = "=0.13.1"
unic-langid = "=0.9.6"
