[package]
name = "opendaw"
version = "0.1.0"
edition = "2021"
publish = false

[dependencies]
midly = "=0.5.3"
hound = "=3.5.1"
rayon = "=1.12.0"
rustysynth = "=1.3.8"
serde = { version = "=1.0.229", features = ["derive"] }
serde_json = "=1.0.154"
