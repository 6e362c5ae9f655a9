[package]
name = "task_sched"
version = "0.1.0"
edition = "2021"
publish = false

[dependencies]
chrono = { version = "=0.4.45", features = ["serde"] }
iso8601-duration = { version = "=0.2.0", features = ["chrono"] }
serde = { version = "*", features = ["derive"] }
serde_json = "*"
tokio = { version = "*", features = ["macros", "rt-multi-thread", "process"] }
reqwest = { version = "*", default-features = false, features = ["json"] }
clap = { version = "*", features = ["derive", "env"] }
tracing = "*"
tracing-subscriber = { version = "*", features = ["env-filter"] }
color-eyre = "*"
