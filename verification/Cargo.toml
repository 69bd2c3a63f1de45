[package]
name = "field_matrix"
version = "0.1.0"
edition = "2021"
publish = false

[dependencies]
ff = "=0.5.0"
paired = "=0.16.1"
