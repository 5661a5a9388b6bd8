[package]
name = "ndown"
version = "0.1.0"
edition = "2021"
publish = false

[dependencies]
makepad-widgets = "*"
arboard = { version = "*", default-features = false }
tokio = { version = "*", features = ["rt-multi-thread"] }
once_cell = "*"
log = "*"
