[package]
name = "musicos"
version = "0.1.0"
edition = "2021"
publish = false

[dependencies]
midly = "=0.5.3"
serde = { version = "=1.0.229", features = ["derive"] }
serde_json = "=1.0.154"
thiserror = "=2.0.21"
toml = "*"
clap = { version = "=4.6.7", features = ["derive"] }
hound = "=3.5.1"
rustysynth = "=1.3.8"
schemars = "=1.2.3"
anyhow = "=1.0.104"
tracing-subscriber = { version = "=0.3.23", features = ["env-filter"] }
rtrb = "=0.4.1"
libloading = "*"
clap-sys = "=0.5.0"
ctrlc = "=3.5.2"
