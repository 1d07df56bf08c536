[package]
name = "detours_rs"
version = "0.1.0"
edition = "2021"
publish = false

[dependencies]
iced-x86 = { version = "*", default-features = false, features = ["decoder", "std"] }
windows-sys = { version = "*", features = ["Win32_Foundation", "Win32_System_Memory", "Win32_System_Diagnostics_Debug", "Win32_System_SystemServices", "Win32_System_Threading"] }
