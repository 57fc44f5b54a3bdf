[package]
name = "node_fiddler"
version = "0.1.0"
edition = "2021"
publish = false

[dependencies]
winit = { version = "=0.28.7", default-features = false, features = ["x11"] }
egui = "=0.23.0"
egui-winit = { version = "=0.23.0", default-features = false }
egui_extras = { version = "=0.23.0", default-features = false }
egui-wgpu = { version = "=0.23.0", default-features = false }
wgpu = { version = "0.17", default-features = false, features = ["wgsl"] }
tokio = { version = "=1.54.1", default-features = false, features = ["macros", "rt-multi-thread"] }
env_logger = { version = "=0.10.2", default-features = false }
cacao = "=0.3.2"
objc = "=0.2.7"
objc_id = "=0.1.1"
