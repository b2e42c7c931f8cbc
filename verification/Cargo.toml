[package]
name = "mailsize"
version = "0.1.0"
edition = "2021"
publish = false

[dependencies]
mail-parser = "*"
clap = { version = "*", features = ["derive"] }
anyhow = "*"
rusqlite = { version = "*", features = ["bundled"] }
rusqlite_migration = "*"
actix-web = { version = "*", default-features = false, features = ["macros"] }
tokio = { version = "*", features = ["rt-multi-thread"] }
tera = { version = "*", default-features = false }
serde = { version = "*", features = ["derive"] }
humansize = "*"
