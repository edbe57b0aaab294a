[package]
name = "forgers"
version = "0.1.0"
edition = "2021"
publish = false

[dependencies]
bitvec = "*"
vcf = "*"
flate2 = "*"
log = "*"
env_logger = "*"
structopt = "*"
