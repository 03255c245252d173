[package]
name = "ui_editor"
version = "0.1.0"
edition = "2021"
publish = false

[dependencies]
serde_json = "1"
arboard = { version = "3", default-features = false }
winapi = { version = "0.3", features = ["winuser", "winbase", "minwindef"] }

[dev-dependencies]
serde_json = "1"
