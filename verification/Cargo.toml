[package]
name = "floem_view"
version = "0.1.0"
edition = "2021"
publish = false

[dependencies]
floem_reactive = "0.2.0"
peniko = "0.2.0"
taffy = "0.5.2"
