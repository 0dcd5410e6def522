[package]
name = "sparse_scan"
version = "0.1.0"
edition = "2021"
publish = false

[dependencies]
libc = "0.2"
tempfile = "3"
rand = "*"
quickcheck = "*"
winapi = { version = "0.3", features = ["minwindef", "ntdef", "fileapi", "ioapiset", "winerror", "winioctl", "winnt"] }
