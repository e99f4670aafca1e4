[package]
name = "quepasa"
version = "0.1.0"
edition = "2021"
publish = false

[dependencies]
anyhow = "1"
axum = "0.4"
hyperlocal = "0.8"
keepass = "0.4"
libc = "0.2"
rpassword = "5"
serde = { version = "1", features = ["derive"] }
tokio = { version = "1", features = ["macros", "rt-multi-thread"] }
tracing = "0.1"
tracing-subscriber = "0.3"
xdg = "2"
