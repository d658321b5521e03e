[package]
name = "photonyx"
version = "0.1.0"
edition = "2021"
publish = false

[dependencies]
sha2 = "*"
flate2 = "*"
chrono = "*"
regex = "*"
serde = { version = "*", features = ["derive"] }
serde_yaml = "*"
thiserror = "*"
clap = { version = "*", features = ["derive", "env"] }
clap_complete = "*"
dunce = "*"
rayon = "*"
tracing = "*"
tracing-subscriber = { version = "*", features = ["env-filter", "json"] }
tokio = { version = "*", features = ["macros", "rt-multi-thread"] }
