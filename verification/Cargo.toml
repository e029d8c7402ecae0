[package]
name = "procscope"
version = "0.1.0"
edition = "2021"
publish = false

[dependencies]
sysinfo = "0.25"
nix = { version = "0.26", features = ["signal"] }
