[package]
name = "ic_todo_crud_backend"
version = "0.1.0"
edition = "2021"
publish = false

[dependencies]
candid = "0.8"
ic-cdk = "0.9"
serde = { version = "1", features = ["derive"] }
