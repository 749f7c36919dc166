[package]
name = "joycon_quat"
version = "0.1.0"
edition = "2021"
publish = false

[dependencies]
az = "=1.3.0"
bilge = "=0.2.0"
bitvec = "=1.1.1"
fixed = "=1.31.0"
fixed-sqrt = "=0.2.5"
