[package]
name = "order_book_engine"
version = "0.1.0"
edition = "2021"
publish = false

[dependencies]
rust_decimal = "1.37"
chrono = "0.4"
