[package]
name = "luaffi"
version = "0.1.1"
edition = "2021"
publish = false

[dependencies]
libc = "=0.2.191"
mlua = { version = "=0.10.5", features = ["lua54", "vendored"] }
windows-sys = { version = "0.48", features = ["Win32_Foundation", "Win32_System_LibraryLoader"] }
