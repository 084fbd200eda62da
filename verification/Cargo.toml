[package]
name = "prose"
version = "0.1.0"
edition = "2021"
publish = false

[dependencies]
unicode-width = "*"
pathfinding = "*"
pulldown-cmark = "*"
clap = { version = "*", features = ["derive"] }
