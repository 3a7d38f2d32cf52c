[package]
name = "bf_opt"
version = "0.1.0"
edition = "2021"
publish = false

[dependencies]
dynasmrt = "*"
