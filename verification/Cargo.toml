[package]
name = "classroom_core"
version = "0.1.0"
edition = "2021"
publish = false

[dependencies]
anyhow = "*"
clap = { version = "*", features = ["derive"] }
dirs = "*"
google-classroom1 = "*"
google-drive3 = "*"
http-body-util = "*"
hyper-rustls = "*"
hyper-util = "*"
moka = { version = "*", features = ["future"] }
rmcp = { version = "*", features = ["server", "transport-io"] }
rustls = "*"
schemars = "*"
serde = { version = "*", features = ["derive"] }
serde_json = "*"
thiserror = "*"
tokio = { version = "*", features = ["macros", "rt-multi-thread"] }
tracing = "*"
tracing-subscriber = { version = "*", features = ["env-filter"] }
yup-oauth2 = "*"
