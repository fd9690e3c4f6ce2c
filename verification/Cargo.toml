[package]
name = "grcache"
version = "0.1.0"
edition = "2021"
publish = false

[dependencies]
async-trait = "0.1"
base64 = "=0.22.1"
bb8 = "0.8"
bb8-redis = "0.18"
bincode = "=1.3.3"
blake2 = "=0.10.6"
bytes = "=1.12.1"
clap = { version = "4", features = ["derive"] }
env_logger = { version = "0.11", default-features = false }
futures = "0.3"
hickory-resolver = "0.24"
http = "=1.5.0"
k8s-openapi = { version = "0.24", features = ["latest"] }
kube = { version = "0.98", features = ["runtime", "derive"] }
log = "0.4"
opentelemetry = "0.28"
opentelemetry-otlp = { version = "0.28", default-features = false, features = ["http-proto", "trace", "reqwest-blocking-client"] }
opentelemetry_sdk = "0.28"
papaya = "=0.2.5"
pingora = { version = "0.4", features = ["lb", "proxy", "cache"] }
pingora-ketama = "=0.9.0"
protobuf = "=3.7.2"
schemars = "0.8"
serde = { version = "1", features = ["derive"] }
serde_yaml = "0.9"
sha2 = "=0.10.9"
tokio = { version = "1", features = ["full"] }
toml = { version = "0.8", default-features = false, features = ["parse"] }
url = "=2.5.8"
