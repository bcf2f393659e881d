[package]
name = "stax"
version = "0.1.0"
edition = "2021"
publish = false

[dependencies]
anyhow = "1"
chrono = "*"
clap = { version = "4", features = ["derive"] }
colored = "*"
console = "*"
dialoguer = { version = "*", features = ["fuzzy-select"] }
dirs = "*"
fern = "*"
git2 = { version = "*", default-features = false }
libc = "*"
log = "*"
octocrab = "*"
reqwest = { version = "*", default-features = false, features = ["json", "rustls-tls"] }
serde = { version = "1", features = ["derive"] }
serde_json = "1"
tempfile = "*"
tokio = { version = "1", features = ["full"] }
url = "2"
webbrowser = "*"
