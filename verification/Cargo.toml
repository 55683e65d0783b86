[package]
name = "gps_map"
version = "0.1.0"
edition = "2021"
publish = false

[dependencies]
image = { version = "=0.25.10", default-features = false, features = ["png"] }
reqwest = { version = "=0.12.28", default-features = false, features = ["rustls-tls"] }
tokio = { version = "=1.54.1", features = ["rt-multi-thread", "macros", "time"] }
serialport = { version = "=4.10.1", default-features = false }
nmea = "=0.7.0"
env_logger = "=0.11.11"
log = "=0.4.34"
