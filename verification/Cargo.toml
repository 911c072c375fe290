[package]
name = "conflux"
version = "0.1.0"
edition = "2021"
publish = false

[dependencies]
async-trait = "0.1"
jsonwebtoken = { version = "=10.4.0", features = ["rust_crypto"] }
rand = "*"
rand_distr = "*"
serde_json = { version = "=1.0.154", features = ["raw_value"] }
sha2 = "=0.10.9"
thiserror = "2"
tokio = { version = "1", features = ["full"] }
tokio-stream = { version = "0.1", features = ["net"] }
tokio-util = "0.7"
tonic = { version = "0.14", features = ["tls-ring"] }
tracing = "0.1"
tracing-subscriber = { version = "0.3", features = ["env-filter"] }

[dev-dependencies]
rcgen = "0.14"
