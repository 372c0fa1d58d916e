[package]
name = "fdu"
version = "0.1.0"
edition = "2021"
publish = false

[dependencies]
clap = { version = "4", features = ["derive"] }
crossterm = "0.28"
humansize = "2"
jwalk = "0.8"
ratatui = "0.29"
rayon = "1"
windows = { version = "0.58", features = ["Win32_Foundation", "Win32_Storage_FileSystem"] }
