[package]
name = "ket"
version = "0.1.0"
edition = "2021"
publish = false

[dependencies]
smallvec = "1"
colored = "*"
notify = "*"
notify-debouncer-mini = "*"
tokio = { version = "1", features = ["rt-multi-thread", "sync", "io-std", "macros"] }
tower-lsp-server = "*"
