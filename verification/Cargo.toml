[package]
name = "ivfpq"
version = "0.1.0"
edition = "2021"
publish = false

[dependencies]
avl = "=0.8.0"
dotenv = "=0.15.0"
heapless = "=0.8.0"
linfa = "=0.7.1"
linfa-clustering = "=0.7.1"
linfa-nn = "=0.7.2"
ndarray = "=0.15.6"
ordered-float = "=5.5.0"
rand_xoshiro = "=0.6.0"
rocksdb = "=0.25.0"
serde = { version = "=1.0.229", features = ["derive"] }
serde_cbor = "=0.11.2"
