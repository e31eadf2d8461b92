[package]
name = "mariadb_operator_backup_metrics"
version = "0.1.0"
edition = "2021"
publish = false

[dependencies]
chrono = "=0.4.45"
axum = "=0.8.9"
clap = { version = "=4.6.7", features = ["derive", "env"] }
color-eyre = "=0.6.5"
either = "=1.18.0"
futures = "=0.3.34"
kube = { version = "=3.1.0", default-features = false, features = ["client", "runtime", "derive"] }
k8s-openapi = { version = "=0.27.1", features = ["latest"] }
schemars = "=1.2.2"
serde_json = "=1.0.151"
serde = { version = "=1.0.229", features = ["derive"] }
tokio = { version = "=1.53.2", features = ["macros", "rt-multi-thread", "signal", "time", "sync", "net"] }
tracing = "=0.1.44"
tracing-subscriber = { version = "=0.3.23", features = ["env-filter"] }
