[package]
name = "ring_lwe"
version = "0.1.0"
edition = "2021"
publish = false

[dependencies]
ntt = "*"
rand = "0.8"
rand_distr = "0.4"
base64 = "0.22"
bincode = "1"
serde = { version = "1", features = ["derive"] }
axum = "0.7"
tokio = { version = "1", features = ["macros", "rt-multi-thread", "net"] }
tower-http = { version = "0.5", features = ["trace"] }
tracing = "0.1"
tracing-subscriber = { version = "0.3", features = ["env-filter"] }
polynomial-ring = "*"
