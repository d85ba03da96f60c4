[package]
name = "ishansearch"
version = "0.1.0"
edition = "2021"
publish = false

[dependencies]
anyhow = "1"
bincode = "1.3"
crossterm = "0.25"
diesel = { version = "2.2", default-features = false, features = ["sqlite"] }
dotenvy = "0.15"
percent-encoding = "2.3"
reqwest = { version = "0.12", default-features = false, features = ["blocking", "rustls-tls"] }
scraper = "0.20"
serde = { version = "1", features = ["derive"] }
serde_json = "1"
sha1 = "0.10"
tui = { version = "0.19", default-features = false, features = ["crossterm"] }
