[package]
name = "color_finder"
version = "0.1.0"
edition = "2021"
publish = false

[dependencies]
anyhow = "=1.0.104"
clap = { version = "=4.6.7", features = ["derive"] }
css-color = "=0.2.8"
derive-new = "=0.5.9"
futures = "=0.3.34"
image = { version = "=0.24.9", default-features = false, features = ["jpeg", "png"] }
indicatif = "=0.17.11"
kmeans_colors = { version = "=0.5.0", default-features = false, features = ["palette_color"] }
palette = "=0.6.1"
reqwest = { version = "=0.11.27", default-features = false, features = ["rustls-tls"] }
rspotify = { version = "0.13", default-features = false, features = ["client-reqwest", "reqwest-rustls-tls", "cli"] }
tokio = { version = "=1.54.1", features = ["full"] }
