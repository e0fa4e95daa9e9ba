[package]
name = "ratto"
version = "0.1.0"
edition = "2021"
publish = false

[dependencies]
anyhow = "=1.0.104"
clap = { version = "=4.6.7", features = ["derive"] }
clap_complete = "4"
jiff = "0.2"
kdl = "=6.7.1"
nucleo-matcher = "0.3"
ratatui = "=0.30.2"
shell-words = "=1.1.1"
unicode-width = "=0.2.3"
