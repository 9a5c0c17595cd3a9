[package]
name = "matugen"
version = "0.1.0"
edition = "2021"
publish = false

[dependencies]
material-colors = "=0.4.2"
colorsys = "=0.6.7"
serde = { version = "=1.0.229", features = ["derive"] }
serde_json = "=1.0.154"
indexmap = { version = "=2.14.2", features = ["serde"] }
log = "=0.4.35"
csscolorparser = "=0.9.0"
sha2 = "=0.10.9"
image = { version = "=0.25.10", default-features = false, features = ["png", "jpeg"] }
string_cache = "=0.8.9"
chumsky = "=0.13.0"
convert_case = "*"
