[package]
name = "spreadsheet-ods"
version = "0.1.0"
edition = "2021"
publish = false

[dependencies]
string_cache = { version = "0.8", default-features = false }
