[package]
name = "requester"
version = "0.1.0"
edition = "2021"
publish = false

[dependencies]
reqwest = "=0.12.28"
directories = "=5.0.1"
dioxus = { version = "=0.6.3", default-features = false, features = ["macro", "html", "hooks", "signals", "launch"] }
