[package]
name = "slab_allocator"
version = "0.1.0"
edition = "2021"
publish = false

[dependencies]
x86_64 = { version = "0.14", default-features = false, features = ["instructions"] }
bootloader = { version = "0.9", features = ["map_physical_memory"] }
spin = "0.9"
volatile = "0.2.6"
