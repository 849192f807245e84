[package]
name = "kernel"
version = "0.1.0"
edition = "2021"
publish = false

[dependencies]
bitflags = "*"
buddy_system_allocator = "*"
hashbrown = "*"
lazy_static = { version = "*", features = ["spin_no_std"] }
riscv = "*"
spin = "*"
