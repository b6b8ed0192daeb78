[package]
name = "sworndisk"
version = "0.1.0"
edition = "2021"
publish = false

[dependencies]
postcard = { version = "1.0", default-features = false, features = ["alloc"] }
serde = { version = "1.0", default-features = false, features = ["alloc", "derive"] }
pod = "*"
lazy_static = "1.4"
spin = "0.9"
log = "0.4"

[dev-dependencies]
hashbrown = "0.14"
