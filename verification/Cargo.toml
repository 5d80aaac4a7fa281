[package]
name = "kiditrade"
version = "0.1.0"
edition = "2021"
publish = false

[dependencies]
chrono = "0.4"
futures = "0.3"
itertools = "0.9"
pg_interval = "*"
prost = "0.12"
prost-types = "0.12"
rust_decimal = { version = "1", features = ["db-tokio-postgres"] }
structopt = "0.3"
ta = "*"
tokio = { version = "1", features = ["rt-multi-thread", "macros"] }
tokio-postgres = "0.7"
tonic = "0.11"
tracing = "0.1"
tracing-subscriber = "0.3"
