[package]
name = "sitegen"
version = "0.1.0"
edition = "2021"
publish = false

[dependencies]
ammonia = "=4.2.1"
anyhow = "*"
chrono = "=0.4.45"
env_logger = "*"
frontmatter = "=0.4.0"
lazy_static = "*"
log = "*"
maud = "=0.27.0"
pulldown-cmark = "=0.13.4"
rss = { version = "=2.1.2", features = ["validation"] }
serde = { version = "*", features = ["derive"] }
serde_yaml = "*"
syntect = { version = "=5.3.0", default-features = false, features = ["default-fancy"] }
walkdir = "*"
