[package]
name = "sch_rs"
version = "0.1.0"
edition = "2021"
publish = false
