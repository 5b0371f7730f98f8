[package]
name = "state_engine"
version = "0.1.0"
edition = "2021"
publish = false

[dependencies]
fefix = "=0.7.0"
chrono = "=0.4.45"
log = "=0.4.35"
tokio = { version = "=1.54.1", features = ["full"] }
dotenv = "=0.15.0"
flexi_logger = { version = "=0.31.10", features = ["async"] }
