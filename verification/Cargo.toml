[package]
name = "guten_rs"
version = "0.1.0"
edition = "2021"
publish = false

[dependencies]
anyhow = "*"
clap = { version = "*", features = ["derive"] }
env_logger = "*"
glob = "*"
indicatif = "*"
once_cell = "*"
rand = "*"
rayon = "*"
reqwest = { version = "*", default-features = false, features = ["rustls-tls"] }
select = "*"
serde = { version = "*", features = ["derive"] }
serde_json = "*"
tokio = { version = "*", features = ["rt-multi-thread", "macros", "time", "fs"] }
toml = "*"
trauma = "*"
zip = { version = "*", default-features = false }
