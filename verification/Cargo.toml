[package]
name = "passage"
version = "0.1.0"
edition = "2021"
publish = false

[dependencies]
age = "0.5"
secrecy = "0.7"
clap = "2"
clipboard = "0.5"
colored = "2"
dirs = "3"
pinentry = "*"
rpassword = "5"
