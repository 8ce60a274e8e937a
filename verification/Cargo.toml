[package]
name = "d20roll"
version = "0.1.0"
edition = "2021"
publish = false

[dependencies]
rfyl = "=0.3.1"
futures = "=0.1.31"
gtk = "=0.3.0"
relm = "=0.11.0"
relm-derive = "=0.11.0"
