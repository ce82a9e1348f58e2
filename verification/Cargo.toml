[package]
name = "gameserver"
version = "0.1.0"
edition = "2021"
publish = false

[dependencies]
persy = "1"
rand = "0.8"
rocket = { version = "0.5", features = ["json"] }
rocket_dyn_templates = { version = "0.2", features = ["handlebars"] }
