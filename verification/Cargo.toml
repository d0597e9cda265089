[package]
name = "zcode_switcher"
version = "0.1.0"
edition = "2021"
publish = false

[dependencies]
serde = { version = "=1.0.229", features = ["derive"] }
serde_json = "=1.0.154"
chrono = "=0.4.45"
dirs = "=5.0.1"
sysinfo = "=0.32.1"
axum = "=0.7.9"
tower-http = { version = "=0.5.2", features = ["cors"] }
tokio = { version = "=1.54.1", features = ["full"] }
bytes = "=1.12.1"
reqwest = { version = "=0.12.28", default-features = false, features = ["json", "rustls-tls", "stream"] }
futures-util = "=0.3.34"
tokio-tungstenite = "=0.23.1"
windows = { version = "=0.57.0", features = ["Win32_Foundation", "Win32_System_Com", "Win32_UI_Shell", "Win32_Storage_FileSystem"] }
