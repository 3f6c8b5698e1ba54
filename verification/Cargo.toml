[package]
name = "vmf_parser_nom"
version = "0.1.0"
edition = "2021"
publish = false

[dependencies]
nom = "7"
