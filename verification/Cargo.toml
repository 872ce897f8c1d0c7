[package]
name = "wrecked"
version = "1.1.0"
edition = "2021"
publish = false

[dependencies]
libc = "0.2"
termios = "0.3"
winapi = { version = "0.3", features = ["processenv", "winbase", "handleapi", "wincon", "winnt"] }
