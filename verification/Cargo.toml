[package]
name = "tfdeploy"
version = "0.1.0"
edition = "2021"
publish = false

[dependencies]
bit-set = "*"
ndarray = "*"
num-traits = "*"
itertools = "*"
log = "*"
simplelog = "*"
clap = "2"
colored = "*"
ansi_term = "*"
prettytable-rs = "*"
textwrap = "*"
terminal_size = "*"
pbr = "*"
atty = "*"
rand = "*"
error-chain = "*"
dot = "*"
