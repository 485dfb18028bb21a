[package]
name = "paperman"
version = "0.1.0"
edition = "2021"
publish = false

[dependencies]
unicode-normalization = "*"
unidecode = "*"
nom-bibtex = "*"
json = "*"
