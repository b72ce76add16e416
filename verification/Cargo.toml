[package]
name = "lumen"
version = "0.1.0"
edition = "2021"
publish = false

[dependencies]
argon2 = "0.5"
chrono = "0.4"
password-hash = "0.5"
r2d2 = "0.8"
r2d2_sqlite = { version = "*", features = ["bundled"] }
rand_core = { version = "0.6", features = ["std"] }
rocket = "0.5"
rocket_dyn_templates = { version = "0.2", features = ["handlebars"] }
serde = { version = "1", features = ["derive"] }
serde_json = "1"
uuid = { version = "1", features = ["v4"] }
