[package]
name = "modelator"
version = "0.1.0"
edition = "2021"
publish = false

[dependencies]
sha2 = "0.10"
hex = "0.4"
petgraph = { version = "0.6", default-features = false }
serde = { version = "1", features = ["derive"] }
serde_json = "1"
thiserror = "1"
nom = "7"
ureq = { version = "2", default-features = false }
tokio = { version = "1", features = ["fs", "rt"] }
tracing = "0.1"
tracing-subscriber = { version = "0.3", features = ["env-filter"] }
tempfile = "3"
rayon = "1"
directories = "4"
once_cell = "1"
ignore = "0.4"
