[package]
name = "early_boot"
version = "0.1.0"
edition = "2021"
publish = false

[dependencies]
axallocator = { version = "=0.2.0", default-features = false }
sbi-rt = { version = "=0.0.3", features = ["legacy"] }
