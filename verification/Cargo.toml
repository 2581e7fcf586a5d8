[package]
name = "mv_with"
version = "0.1.0"
edition = "2021"
publish = false

[dependencies]
atty = "0.2"
camino = "1"
clap = "2"
codespan-reporting = "0.11"
dialoguer = "0.10"
dissimilar = "1"
ignore = "0.4"
lazy_static = "1"
unicode-segmentation = "1"
