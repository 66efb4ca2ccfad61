[package]
name = "pazk"
version = "0.1.0"
edition = "2021"
publish = false

[dependencies]
ark-ff = "=0.4.2"
ark-poly = "=0.4.2"
ark-std = "=0.4.0"
nimue = { version = "=0.1.1", features = ["ark"] }
trpl = "=0.3.0"

[dev-dependencies]
ark-serialize = "=0.4.2"
sha2 = "=0.10.9"
