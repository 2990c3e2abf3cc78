[package]
name = "txn_pipeline"
version = "0.1.0"
edition = "2021"
publish = false

[dependencies]
anyhow = "1"
backoff = { version = "0.4", features = ["tokio"] }
chrono = "0.4"
criterion = { version = "0.3.5", default-features = false }
futures = "0.3"
num_cpus = "1"
proptest = "1"
prost = "0.13"
rand = "0.7.3"
rayon = "1"
tonic = "0.12"
tracing = "0.1"
url = "2"
