[package]
name = "prometheus_client_php_mmap"
version = "0.1.0"
edition = "2021"
publish = false

[dependencies]
axum = "0.8"
ext-php-rs = "0.15.6"
libc = "0.2"
memmap2 = "0.9"
serde = { version = "1", features = ["derive"] }
serde_json = "1"
thiserror = "2"
tokio = { version = "1", features = ["macros", "net", "rt-multi-thread"] }
