[package]
name = "df2"
version = "0.1.0"
edition = "2021"
publish = false

[dependencies]
byteorder = "1"
docopt = "0.7"
rustc-serialize = "0.3"
