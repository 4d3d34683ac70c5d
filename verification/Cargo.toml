[package]
name = "brachistochrone"
version = "0.1.0"
edition = "2021"
publish = false

[dependencies]
bevy = { version = "=0.17.3", default-features = false, features = ["std", "async_executor", "multi_threaded", "bevy_asset", "bevy_color", "bevy_core_pipeline", "bevy_render", "bevy_image", "bevy_mesh", "bevy_camera", "bevy_shader", "bevy_sprite", "bevy_sprite_render", "bevy_text", "bevy_ui", "bevy_ui_render", "bevy_window", "bevy_input_focus", "bevy_picking", "bevy_ui_picking_backend", "default_font", "experimental_bevy_feathers", "experimental_bevy_ui_widgets"] }
bevy_rapier2d = { version = "=0.32.0", default-features = false, features = ["dim2"] }
nalgebra = "0.34"
serde = { version = "=1.0.229", features = ["derive"] }
serde_json = "=1.0.154"
web-sys = { version = "=0.3.106", features = ["Window", "Document"] }
