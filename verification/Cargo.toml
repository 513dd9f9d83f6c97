[package]
name = "midi_forge"
version = "0.1.0"
edition = "2021"
publish = false
