[package]
name = "cadagent"
version = "0.1.0"
edition = "2021"
publish = false

[dependencies]
serde = { version = "=1.0.229", features = ["derive"] }
serde_json = "=1.0.154"
uuid = { version = "=1.29.0", features = ["v4", "serde"] }
bumpalo = "=3.20.3"
crossbeam = "=0.8.5"
smallvec = "=1.16.4"
thiserror = "=1.0.69"
roxmltree = "=0.20.0"
usvg = "=0.49.0"
resvg = "=0.49.0"
tiny-skia = "=0.12.0"
nalgebra = "=0.35.0"
clap = { version = "=4.6.7", features = ["derive"] }
anyhow = "=1.0.104"
tracing = "=0.1.44"
tracing-subscriber = "=0.3.23"
dotenvy = "=0.15.7"
rayon = "=1.12.0"
bytemuck = { version = "=1.25.2", features = ["derive"] }
wgpu = "0.20"
futures-intrusive = "0.5"
