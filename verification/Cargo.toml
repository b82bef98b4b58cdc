[package]
name = "sudoku"
version = "0.1.0"
edition = "2021"
publish = false

[dependencies]
futures = "*"
gotham = "*"
hyper = "*"
mime = "*"
serde = { version = "*", features = ["derive"] }
serde_json = "*"
