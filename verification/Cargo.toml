[package]
name = "warper"
version = "0.1.0"
edition = "2021"
publish = false

[dependencies]
serde = { version = "=1.0.229", features = ["derive"] }
serde_json = "=1.0.154"
tokio = { version = "=1.54.1", features = ["process", "time", "sync", "io-util", "rt", "macros"] }
reqwest = { version = "=0.12.28", default-features = false, features = ["rustls-tls"] }
windows = { version = "0.62", features = ["Win32_Foundation", "Win32_Security_Cryptography", "Win32_UI_Shell", "Win32_UI_Shell_PropertiesSystem", "Win32_System_Registry", "Win32_System_Com", "Win32_System_Com_StructuredStorage", "Win32_System_JobObjects"] }
