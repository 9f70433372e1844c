[package]
name = "holiday_calendar"
version = "0.1.0"
edition = "2021"
publish = false

[dependencies]
encoding_rs = "0.8"
reqwest = { version = "0.12", features = ["blocking"] }
