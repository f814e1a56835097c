[package]
name = "rei_manga"
version = "0.1.0"
edition = "2021"
publish = false

[dependencies]
url = "2"
natord = "1"
serde = { version = "1", features = ["derive"] }
serde_json = "1"
chrono = "0.4"
image = { version = "0.25", default-features = false, features = ["png", "jpeg", "webp", "bmp", "tiff", "gif"] }
imageproc = { version = "0.25", default-features = false }
opencv = { version = "0.93", default-features = false, features = ["imgproc"] }
walkdir = "2"
reqwest = { version = "0.12", default-features = false, features = ["blocking", "json", "rustls-tls"] }
sha2 = "0.10"
hex = "0.4"
zip = { version = "0.6", default-features = false, features = ["deflate"] }
tempfile = "3"
thiserror = "1"
tokio = { version = "1", features = ["net", "time", "rt"] }
tokio-tungstenite = "0.21"
futures-util = { version = "0.3", features = ["sink"] }
http = "1"
rusqlite = { version = "0.31", features = ["bundled"] }
