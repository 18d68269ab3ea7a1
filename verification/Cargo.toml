[package]
name = "genea_graph"
version = "0.1.0"
edition = "2021"
publish = false

[dependencies]
petgraph = "=0.8.3"
chrono = { version = "=0.4.45", default-features = false, features = ["std", "serde"] }
serde = { version = "=1.0.229", features = ["derive"] }
serde_json = "=1.0.154"
egui = "=0.35.0"
eframe = { version = "=0.35.0", default-features = false, features = ["default_fonts", "glow", "x11"] }
egui_extras = { version = "=0.35.0", default-features = false, features = ["datepicker", "serde"] }
jiff = "=0.2.39"
egui_graphs = { version = "=0.31.0", features = ["events"] }
crossbeam = "=0.8.5"
reqwest = { version = "=0.13.5", default-features = false, features = ["json"] }
web-sys = { version = "=0.3.107", features = ["console"] }
wasm-bindgen-futures = "=0.4.80"
