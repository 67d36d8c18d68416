[package]
name = "canvas_tui"
version = "0.1.0"
edition = "2021"
publish = false

[dependencies]
chrono = { version = "0.4", features = ["serde"] }
config = "0.14"
crossterm = "0.28"
dotenv = "0.15"
graphql_client = { version = "0.14", default-features = false }
open = "5"
ratatui = "0.29"
reqwest = { version = "0.12", features = ["json"] }
select = "0.6"
serde = { version = "1", features = ["derive"] }
serde_json = "1"
tokio = { version = "1", features = ["full"] }
