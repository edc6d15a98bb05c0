[package]
name = "graph_layout"
version = "0.1.0"
edition = "2021"
publish = false

[dependencies]
gl = "0.14"
glfw = "*"
rand = "*"
serde = "1"
serde_json = "1"
