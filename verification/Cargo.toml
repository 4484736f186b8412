[package]
name = "gliss"
version = "0.1.0"
edition = "2021"
publish = false

[dependencies]
rand = "=0.8.8"
vst = "=0.3.0"
log = "=0.4.34"
egui = "=0.37.0"
emath = "=0.37.0"
egui-baseview = "=0.9.0"
baseview = "=0.4.1"
raw-window-handle = "=0.6.2"
dirs = "=4.0.0"
anyhow = "=1.0.104"
simplelog = "=0.11.2"
log-panics = "=2.1.0"
