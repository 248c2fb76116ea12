[package]
name = "dtr_sim"
version = "0.1.0"
edition = "2021"
publish = false

[dependencies]
rand = "0.8.5"
egg = "0.6.0"
