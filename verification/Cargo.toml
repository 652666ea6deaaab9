[package]
name = "autobahn"
version = "0.1.0"
edition = "2021"
publish = false

[dependencies]
bytes = "1"
rand = "0.8"
tokio = { version = "1", features = ["macros", "rt-multi-thread", "net", "sync", "time"] }
tokio-tungstenite = "0.26"
tungstenite = "0.26"
futures-util = "0.3"
toml = "0.8"
serde = { version = "1", features = ["derive"] }
log = "0.4"
env_logger = "0.11"
nalgebra = "0.33"
rstar = "0.12"
