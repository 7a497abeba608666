[package]
name = "npuzzle"
version = "0.1.0"
edition = "2021"
publish = false

[dependencies]
rand = "0.7"
structopt = "0.2"
clap = "2"
getopts = "0.2"
