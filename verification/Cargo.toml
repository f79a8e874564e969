[package]
name = "obamify"
version = "0.1.0"
edition = "2021"
publish = false

[dependencies]
bytemuck = { version = "=1.25.2", features = ["derive"] }
color_quant = "=1.1.0"
eframe = { version = "=0.32.3", default-features = false, features = ["wgpu", "x11", "default_fonts", "persistence"] }
egui = { version = "=0.32.3", default-features = false }
egui-wgpu = { version = "=0.32.3", default-features = false }
frand = "=0.10.1"
gif = "=0.13.3"
image = { version = "=0.25.10", default-features = false, features = ["png"] }
rfd = { version = "=0.15.4", default-features = false, features = ["xdg-portal", "tokio"] }
serde = { version = "=1.0.229", features = ["derive"] }
serde-wasm-bindgen = "0.6"
uuid = { version = "=1.29.0", features = ["v4", "serde"] }
wasm-bindgen = "=0.2.130"
wasm-bindgen-futures = "=0.4.80"
web-sys = { version = "=0.3.107", features = ["console", "DedicatedWorkerGlobalScope", "ErrorEvent", "Event", "MessageEvent", "Worker", "WorkerOptions", "WorkerType"] }
wgpu = { version = "=25.0.2", default-features = false, features = ["wgsl"] }
