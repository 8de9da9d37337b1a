[package]
name = "catacraft"
version = "0.1.0"
edition = "2021"
publish = false

[dependencies]
serde = { version = "1", features = ["derive"] }
serde_json = "1"
json5 = "*"
walkdir = "2"
env_logger = "*"
itertools = "*"
ordered-float = "*"
enum-as-inner = "*"
plotters = { version = "0.3", default-features = false, features = ["svg_backend", "line_series", "point_series"] }
