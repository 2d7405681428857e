[package]
name = "memmap_fs"
version = "0.1.0"
edition = "2021"
publish = false

[dependencies]
bincode = "1.3"
memmap2 = "0.9"
serde = { version = "1", features = ["derive"] }
tantivy = "0.22"
thiserror = "1"
tokio = { version = "1", features = ["full"] }
