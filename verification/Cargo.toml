[package]
name = "preprocess_cancellation"
version = "0.1.0"
edition = "2021"
publish = false

[dependencies]
winnow = "0.6"
clap = { version = "4", features = ["cargo"] }
tempfile = "3"
thiserror = "1"
pyo3 = "0.21"
