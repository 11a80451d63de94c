[package]
name = "router"
version = "0.1.0"
edition = "2021"
publish = false

[dependencies]
leptos = { version = "=0.3.1", default-features = false, features = ["stable"] }
