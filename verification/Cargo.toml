[package]
name = "adae"
version = "0.1.0"
edition = "2021"
publish = false

[dependencies]
num-traits = "0.2"
serde = { version = "1", features = ["derive"] }
cpal = "0.15"
symphonia = "0.5"
rubato = "0.14"
ringbuf = "0.2"
intrusive-collections = "0.9"
atomicbox = "0.4"
