[package]
name = "prob_sampling"
version = "0.1.0"
edition = "2021"
publish = false

[dependencies]
hashbrown = { version = "=0.14.5", features = ["serde"] }
libafl_bolts = { version = "=0.11.2", default-features = false }
serde = { version = "=1.0.229", features = ["derive"] }
