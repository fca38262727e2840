[package]
name = "buddy_slab_allocator"
version = "0.1.0"
edition = "2021"
publish = false

[dependencies]
kspin = "*"
strum = { version = "*", features = ["derive"] }
