[package]
name = "particle_editor"
version = "0.1.0"
edition = "2021"
publish = false

[dependencies]
macroquad = "*"
macroquad-particles = "*"
