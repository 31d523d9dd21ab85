[package]
name = "skyrim_modmgr"
version = "0.1.0"
edition = "2021"
publish = false

[dependencies]
anyhow = "1"
clap = { version = "4", default-features = false, features = ["std", "derive", "help", "usage", "error-context"] }
dirs = "5"
eframe = { version = "=0.24.1", default-features = false, features = ["default_fonts", "glow"] }
flate2 = "1"
junction = "1"
rfd = { version = "=0.14.1", default-features = false, features = ["xdg-portal", "tokio"] }
roxmltree = "=0.20.0"
serde = { version = "1", features = ["derive"] }
serde_json = "1"
sevenz-rust = { version = "0.6", default-features = false }
tar = "0.4"
uuid = { version = "=1.29.0", features = ["v4"] }
walkdir = "2"
zip = { version = "=0.6.6", default-features = false, features = ["deflate"] }
