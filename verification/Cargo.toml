[package]
name = "easy_lang"
version = "0.1.0"
edition = "2021"
publish = false
