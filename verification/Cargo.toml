[package]
name = "lolcat"
version = "0.1.0"
edition = "2021"
publish = false

[dependencies]
atty = "0.2"
clap = "2"
rand = "0.7"
termsize = "0.1"
utf8-chars = "1"
