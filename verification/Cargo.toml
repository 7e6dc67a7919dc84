[package]
name = "arrowtiles"
version = "0.1.0"
edition = "2021"
publish = false

[dependencies]
fast_hilbert = "=2.1.0"
ahash = "=0.8.12"
base64 = "=0.23.1"
serde_json = "=1.0.154"
pmtiles = { version = "=0.26.0", default-features = false, features = ["write", "zstd"] }
arrow = { version = "=60.1.0", features = ["ffi"] }
parquet = { version = "=60.1.0", default-features = false, features = ["arrow"] }
rayon = "=1.12.0"
duckdb = { version = "=1.20000.1", default-features = false, features = ["vscalar", "vscalar-arrow", "loadable-extension"] }
pyo3 = "=0.30.1"
pyo3-log = "=0.13.5"
log = "*"
