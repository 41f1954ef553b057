[package]
name = "media_files"
version = "0.1.0"
edition = "2021"
publish = false

[dependencies]
hex = "0.4"
log = "0.4"
sha1 = "0.6"
trash = "1"
unicode-normalization = "0.1"
