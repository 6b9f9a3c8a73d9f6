[package]
name = "fclones"
version = "0.1.0"
edition = "2021"
publish = false

[dependencies]
console = "0.13"
indoc = "1"
itertools = "0.9"
rayon = "1"
regex = "1"
structopt = "0.3"
thread_local = "1"
