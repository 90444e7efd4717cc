[package]
name = "archidekt_live_set_completion"
version = "0.1.0"
edition = "2021"
publish = false

[dependencies]
regex = "1"
serde = { version = "1", features = ["derive"] }
serde_json = "1"
csv = "1"
futures = "0.3"
bincode = { version = "2", features = ["serde"] }
reqwest = { version = "0.12", default-features = false, features = ["json"] }
rocket = "0.5"
rocket_dyn_templates = { version = "0.2", features = ["handlebars"] }
