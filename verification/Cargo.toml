[package]
name = "family_tree"
version = "0.1.0"
edition = "2021"
publish = false

[dependencies]
serde = { version = "1", features = ["derive"] }
serde_json = "1"
leptos = { version = "0.8", features = ["csr"] }
console_error_panic_hook = "0.1"
