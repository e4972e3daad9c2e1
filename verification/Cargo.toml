[package]
name = "aura_decomp"
version = "0.1.0"
edition = "2021"
publish = false

[dependencies]
sha1 = "=0.10.7"
serde = { version = "=1.0.229", features = ["derive"] }
serde_json = "=1.0.154"
iced-x86 = "=1.22.0"
mlua = { version = "0.9", features = ["lua54", "vendored"] }

[dev-dependencies]
toml = "=0.8.23"
