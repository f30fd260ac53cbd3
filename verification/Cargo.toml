[package]
name = "field_arith"
version = "0.1.0"
edition = "2021"
publish = false

[dependencies]
ff = { version = "=0.13.1", default-features = false }
static_assertions = "1.1"
subtle = { version = "=2.6.1", default-features = false }
