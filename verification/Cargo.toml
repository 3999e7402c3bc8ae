[package]
name = "ns_router"
version = "0.1.0"
edition = "2021"
publish = false

[dependencies]
abstract-ns = "=0.4.3"
