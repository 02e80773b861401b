[package]
name = "todotui"
version = "0.1.0"
edition = "2021"
publish = false

[dependencies]
chrono = "0.4"
clap = "2"
termion = "1"
tui = { version = "0.19", default-features = false, features = ["termion"] }
