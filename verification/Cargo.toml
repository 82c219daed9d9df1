[package]
name = "rumor"
version = "0.10.0"
edition = "2021"
publish = false

[dependencies]
anyhow = "1"
crossterm = { version = "*", features = ["event-stream", "osc52"] }
dotenvy = "0.15"
futures = "0.3"
libc = "0.2"
portable-pty = "*"
ratatui = "*"
regex = "1"
serde = { version = "1", features = ["derive"] }
serde_json = "1"
time = { version = "0.3", features = ["formatting", "macros"] }
tokio = { version = "1", features = ["full"] }
tracing = "0.1"
tracing-appender = "0.2"
tracing-subscriber = { version = "0.3", features = ["env-filter"] }
tui-term = "*"
unicode-width = "0.2"
vt100 = "0.16"
vte = "0.15"
