[package]
name = "file_sharing"
version = "0.1.0"
edition = "2021"
publish = false

[dependencies]
anyhow = "1"
chrono = { version = "0.4", default-features = false, features = ["clock", "serde", "std"] }
dashmap = "5"
eframe = { version = "0.31", default-features = false, features = ["default_fonts", "glow", "persistence", "x11"] }
egui = { version = "0.31", default-features = false, features = ["default_fonts"] }
egui-notify = "0.19"
egui_extras = { version = "0.31", default-features = false }
indexmap = { version = "2", features = ["serde"] }
quinn = { version = "0.11", default-features = false, features = ["runtime-tokio", "rustls-ring"] }
rcgen = { version = "0.13", default-features = false, features = ["crypto", "ring"] }
rfd = { version = "0.17", default-features = false, features = ["xdg-portal"] }
serde = { version = "1", features = ["derive"] }
serde_json = "1"
sha256 = { version = "1", default-features = false }
tokio = { version = "1", features = ["io-util", "macros", "rt-multi-thread", "sync", "time"] }
tokio-util = "0.7"
tracing = "0.1"
