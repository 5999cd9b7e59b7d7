[package]
name = "shell"
version = "0.1.0"
edition = "2021"
publish = false

[dependencies]
chrono = "=0.4.45"
crossterm = "=0.29.0"
keyring = { version = "=3.6.3", features = ["apple-native", "windows-native", "async-secret-service", "crypto-rust", "tokio"] }
libc = "=0.2.191"
russh = { version = "=0.65.0", default-features = false, features = ["ring"] }
rustyline = "=19.0.0"
tokio = { version = "=1.54.1", features = ["rt-multi-thread", "net", "time"] }
windows-sys = { version = "=0.61.2", features = ["Win32_System_Console"] }
