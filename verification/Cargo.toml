[package]
name = "joy"
version = "0.1.0"
edition = "2021"
publish = false

[dependencies]
serde = { version = "=1.0.229", features = ["derive"] }
serde_json = "=1.0.154"
postcard = { version = "=1.1.3", features = ["alloc"] }
miniz_oxide = "=0.9.1"
clap = { version = "=4.6.7", features = ["derive"] }
cyber-nox = "*"
strata-nebu = "*"
cyber-hemera = "*"
zheng = "=0.3.1"
bbg = "=0.2.1"
