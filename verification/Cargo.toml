[package]
name = "denarii"
version = "0.1.0"
edition = "2021"
publish = false

[dependencies]
clap = "*"
rand = "*"
rand_distr = "*"
savefile = "*"
savefile-derive = "*"
