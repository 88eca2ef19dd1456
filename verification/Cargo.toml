[package]
name = "agent-hud"
version = "0.1.0"
edition = "2021"
publish = false

[dependencies]
serde_json = "1"
rusqlite = { version = "*", features = ["bundled"] }
notify = "*"
windows-sys = { version = "*", features = ["Win32_Foundation", "Win32_UI_Shell", "Win32_UI_WindowsAndMessaging", "Win32_UI_HiDpi", "Win32_System_Diagnostics_ToolHelp"] }
windows-canvas = "*"
windows-window = "*"
