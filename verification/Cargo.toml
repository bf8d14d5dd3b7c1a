[package]
name = "fast_mcp_ssh"
version = "0.5.1"
edition = "2021"
publish = false

[dependencies]
anyhow = "1"
arc-swap = "1"
base64 = "0.22"
clap = { version = "4", features = ["derive"] }
dashmap = "6"
dirs = "6"
getrandom = "0.3"
image = { version = "0.25", default-features = false, features = ["png", "jpeg"] }
memchr = "2"
mimalloc = "0.1"
regex = "1"
rmcp = { version = "*", features = ["server", "transport-io", "elicitation", "macros", "schemars"] }
russh = "*"
russh-sftp = "*"
serde = { version = "1", features = ["derive"] }
serde_json = "1"
shellexpand = "3"
thiserror = "2"
time = { version = "0.3", features = ["formatting", "parsing"] }
tokio = { version = "1", features = ["full"] }
toml = "*"
tracing = "0.1"
tracing-appender = "0.2"
tracing-subscriber = { version = "0.3", features = ["env-filter"] }
zeroize = "1"
