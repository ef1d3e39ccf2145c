[package]
name = "robotlb"
version = "0.1.0"
edition = "2021"
publish = false

[dependencies]
hcloud = { version = "=0.26.0", default-features = false, features = ["rustls-tls"] }
kube = { version = "=4.2.0", features = ["runtime", "client"] }
k8s-openapi = { version = "=0.28.0", features = ["latest"] }
gateway-api = { version = "=0.22.0", features = ["experimental"] }
tokio = { version = "=1.54.1", features = ["full"] }
tokio-util = "=0.7.20"
hyper = { version = "=1.12.0", features = ["server", "http1"] }
hyper-util = { version = "=0.1.21", features = ["tokio"] }
http-body-util = "=0.1.5"
clap = { version = "=4.6.7", features = ["derive", "env"] }
dotenvy = "=0.15.7"
futures = "=0.3.34"
async-trait = "=0.1.92"
tracing = "=0.1.44"
tracing-subscriber = "=0.3.23"
tikv-jemallocator = "=0.7.0"
