[package]
name = "prio"
version = "0.1.0"
edition = "2021"
publish = false

[dependencies]
eframe = { version = "*", default-features = false, features = ["wgpu", "x11", "default_fonts"] }
serde = { version = "1", features = ["derive"] }
serde_json = "1"
global-hotkey = "*"
tray-icon = "*"
gtk = "*"
x11-dl = "*"
libc = "0.2"
winit = "*"
windows-sys = { version = "*", features = ["Win32_Foundation", "Win32_System_SystemInformation", "Win32_System_Threading", "Win32_UI_WindowsAndMessaging", "Win32_UI_Input_KeyboardAndMouse"] }
