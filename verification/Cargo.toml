[package]
name = "parcrypt"
version = "0.1.0"
edition = "2021"
publish = false

[dependencies]
block-modes = "0.7"
des = "0.6"
clap = "2"
tokio = { version = "1", features = ["rt-multi-thread", "macros"] }
futures = "0.3"
fltk = "1"
