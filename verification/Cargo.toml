[package]
name = "sizes"
version = "0.1.0"
edition = "2021"
publish = false

[dependencies]
clap = { version = "4", features = ["derive"] }
crossterm = "*"
csv = "1"
ctrlc = "3"
serde = { version = "1", features = ["derive"] }
serde_json = "1"
time = { version = "0.3", features = ["formatting", "local-offset", "macros"] }
windows-sys = { version = "*", features = ["Win32_Storage_FileSystem"] }
