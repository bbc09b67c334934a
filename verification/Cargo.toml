[package]
name = "words_counting"
version = "0.1.0"
edition = "2021"
publish = false

[dependencies]
crossbeam = "*"
unicode-segmentation = "*"
serde = { version = "*", features = ["derive"] }
serde_json = "*"
walkdir = "*"
argparse = "*"
libarchive3-sys = "*"
