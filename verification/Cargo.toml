[package]
name = "pinggame"
version = "0.1.0"
edition = "2021"
publish = false

[dependencies]
rand = "0.4"
bitset = "*"
middleman = "*"
mio = "0.6"
serde = "1"
serde_derive = "1"
clap = "2"
