[package]
name = "drfs"
version = "0.1.0"
edition = "2021"
publish = false

[dependencies]
clap = "2"
crossbeam = "0.7"
num_cpus = "1"
termion = "1"
tui = "0.6"
