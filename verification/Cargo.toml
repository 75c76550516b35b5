[package]
name = "belay"
version = "0.1.0"
edition = "2021"
publish = false

[dependencies]
fixedbitset = "0.5"
blake3 = { version = "1", features = ["pure"] }
rustc-hash = "2"
lasso = { version = "0.7", features = ["multi-threaded"] }
proc-macro2 = { version = "1", features = ["span-locations"] }
syn = { version = "2", features = ["full", "visit", "extra-traits"] }
ignore = "0.4"
rayon = "1"
serde = { version = "1", features = ["derive"] }
serde_json = "1"
clap = { version = "4", features = ["derive", "env"] }
crossterm = "0.28"
ratatui = "0.29"
reqwest = { version = "0.12", default-features = false, features = ["json"] }
async-trait = "0.1"
mimalloc = "0.1"
tracing-subscriber = { version = "0.3", features = ["env-filter"] }
