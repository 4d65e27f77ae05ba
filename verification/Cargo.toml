[package]
name = "email_kit"
version = "0.1.0"
edition = "2021"
publish = false

[dependencies]
addr-spec = { version = "=0.10.4", features = ["literals"] }
mail-parser = "=0.11.9"
base64 = "=0.22.1"
time = { version = "=0.3.55", features = ["formatting", "parsing"] }
serde = { version = "1", features = ["derive"] }
serde_json = "1"
