[package]
name = "summit_surveyor"
version = "0.1.0"
edition = "2021"
publish = false

[dependencies]
priority-queue = "1"
generational-arena = "0.2"
