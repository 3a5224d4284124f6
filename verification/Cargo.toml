[package]
name = "unsafe_path_finder"
version = "0.1.0"
edition = "2021"
publish = false

[dependencies]
syn = { version = "2", features = ["full", "extra-traits", "visit"] }
quote = "1"
prettyplease = "0.2"
walkdir = "2"
rayon = "1"
chrono = "0.4"
