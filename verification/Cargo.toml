[package]
name = "drone_sim"
version = "0.1.0"
edition = "2021"
publish = false

[dependencies]
anyhow = "1"
bincode = "1.3"
macroquad = "0.4"
pathfinding = "4"
serde = { version = "1", features = ["derive"] }
snow = "0.9"
sysinfo = "0.33"
tokio = { version = "1", features = ["full"] }
