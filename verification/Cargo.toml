[package]
name = "aoc_leaderboard"
version = "0.1.0"
edition = "2021"
publish = false

[dependencies]
chrono = "=0.4.45"
config = "=0.11.0"
env_logger = "=0.9.3"
futures = "=0.3.34"
log = "=0.4.34"
reqwest = { version = "=0.11.27", features = ["json"] }
rocket = "0.5"
rocket_dyn_templates = { version = "0.2", features = ["tera"] }
serde = { version = "=1.0.229", features = ["derive"] }
serde_json = "=1.0.154"
tokio = { version = "=1.54.1", features = ["macros", "rt-multi-thread"] }
