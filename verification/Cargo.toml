[package]
name = "pqcrypto_sign_falcon"
version = "0.1.0"
edition = "2021"
publish = false

[dependencies]
rs_shake256 = "*"
num-complex = "*"
num-traits = "*"
rand = "*"
