[package]
name = "kilonova"
version = "0.1.0"
edition = "2021"
publish = false

[dependencies]
nova-snark = "=0.76.0"
ff = "=0.13.1"
rand_core = "=0.6.4"
