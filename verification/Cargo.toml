[package]
name = "quiz_deck"
version = "0.1.0"
edition = "2021"
publish = false

[dependencies]
crossterm = "0.25"
rand = "0.8"
unicode-segmentation = "1"
unwrap-infallible = "0.1"
