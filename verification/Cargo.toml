[package]
name = "gbspacklib"
version = "1.2.7"
edition = "2021"
publish = false

[dependencies]
regex = "1"
clap = "2"
