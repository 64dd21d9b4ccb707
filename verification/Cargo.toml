[package]
name = "dark"
version = "0.1.0"
edition = "2021"
publish = false

[dependencies]
byteorder = "*"
compress = "*"
env_logger = "*"
getopts = "*"
log = "*"
num = "*"

[dev-dependencies]
rand = "*"
