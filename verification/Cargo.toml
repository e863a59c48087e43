[package]
name = "fiberhome-factory"
version = "0.1.0"
edition = "2021"
publish = false

[dependencies]
eframe = { version = "=0.37.0", default-features = false, features = ["default_fonts", "glow", "x11"] }
flate2 = "=1.1.10"
fontdb = "=0.24.0"
getrandom = "=0.4.3"
lzokay-native = "=0.1.0"
rfd = { version = "=0.17.2", default-features = false, features = ["xdg-portal"] }
tempfile = "=3.27.0"
ttf-parser = "=0.25.1"
