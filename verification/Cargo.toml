[package]
name = "pen_plotter"
version = "0.1.0"
edition = "2021"
publish = false

[dependencies]
minifb = "*"
serialport = { version = "*", default-features = false }
macroquad = "*"
rsruckig = "*"
