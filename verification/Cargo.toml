[package]
name = "geeks-event-sourcing"
version = "0.1.0"
edition = "2021"
publish = false

[dependencies]
async-trait = "0.1"
git2 = { version = "*", default-features = false }
nanoid = "*"
run_script = "*"
serde = { version = "1", features = ["derive"] }
serde_json = "1"
thiserror = "1"
