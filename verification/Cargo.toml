[package]
name = "clonehunter"
version = "0.1.0"
edition = "2021"
publish = false

[dependencies]
fxhash = "*"
md5 = "*"
parse-size = "*"
clap = { version = "*", features = ["derive"] }
colored = "*"
human_bytes = "*"
indicatif = "*"
jwalk = "*"
rayon = "*"
chrono = "*"
