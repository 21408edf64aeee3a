[package]
name = "analysis_core"
version = "0.1.0"
edition = "2021"
publish = false

[dependencies]
relative-path = "1"
salsa = "0.16.1"
