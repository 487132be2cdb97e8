[package]
name = "voxel_world"
version = "0.1.0"
edition = "2021"
publish = false

[dependencies]
bevy = { version = "=0.17.3", default-features = false, features = ["std", "async_executor", "multi_threaded", "bevy_asset", "bevy_color", "bevy_core_pipeline", "bevy_anti_alias", "bevy_gltf", "bevy_mesh_picking_backend", "bevy_pbr", "bevy_picking", "bevy_render", "bevy_scene", "bevy_image", "bevy_mesh", "bevy_camera", "bevy_light", "bevy_shader", "bevy_text", "bevy_ui", "bevy_ui_render", "bevy_window", "default_font"] }
fastnoise-lite = "=1.1.1"
crossbeam-channel = "=0.5.17"
