[package]
name = "codeatlas"
version = "0.1.0"
edition = "2021"
publish = false

[dependencies]
async-trait = "=0.1.92"
eframe = { version = "=0.31.1", default-features = false, features = ["default_fonts", "glow", "x11"] }
ignore = "=0.4.34"
rfd = { version = "=0.15.4", default-features = false, features = ["xdg-portal", "async-std"] }
serde = { version = "=1.0.229", features = ["derive"] }
serde_json = "=1.0.154"
sha2 = "=0.10.9"
thiserror = "=2.0.21"
tree-sitter = "=0.25.10"
tree-sitter-python = "0.25"
tree-sitter-rust = "=0.24.2"
