[package]
name = "soft_wrap"
version = "0.1.0"
edition = "2021"
publish = false

[dependencies]
unicode-segmentation = "1"
unicode-width = "0.2"
serde = { version = "1", features = ["derive"] }
arbitrary = { version = "1", features = ["derive"] }

[dev-dependencies]
ratatui = { version = "0.30", default-features = false, features = ["std"] }
