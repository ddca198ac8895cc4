[package]
name = "svgdraw"
version = "0.1.0"
edition = "2021"
publish = false

[dependencies]
bevy = { version = "0.15", default-features = false, features = ["bevy_asset", "bevy_core_pipeline", "bevy_render", "bevy_sprite", "bevy_text", "bevy_ui", "bevy_window", "default_font"] }
bevy_prototype_lyon = "0.13"
bevy_svg = "0.15"
regex = "1"
