[package]
name = "my_dev_tools"
version = "0.1.0"
edition = "2021"
publish = false

[dependencies]
chrono = "0.4"
crossterm = "0.28"
csv = "1"
plotters = { version = "0.3", default-features = false, features = ["bitmap_backend", "bitmap_encoder", "ab_glyph", "line_series"] }
ratatui = "0.29"
rustfft = "6"
tar = "0.4"
zstd = "0.13"
