[package]
name = "universal_converter"
version = "0.1.0"
edition = "2021"
publish = false

[dependencies]
anyhow = "1"
base64 = "0.22"
csv = "1"
quick-xml = "0.38"
pulldown-cmark = { version = "0.13", default-features = false, features = ["html"] }
htmd = "*"
serde = { version = "1", features = ["derive"] }
serde_json = "1"
serde_yaml = "0.9"
toml = "0.8"
zip = { version = "2", default-features = false, features = ["deflate"] }
tar = "0.4"
flate2 = "1"
sevenz-rust2 = "*"
symphonia = { version = "0.5", default-features = false, features = ["mp3", "ogg", "vorbis", "flac", "wav", "pcm", "aac", "isomp4"] }
hound = "3"
flacenc = "*"
image = { version = "0.25", default-features = false, features = ["png", "jpeg"] }
lopdf = "*"
printpdf = "*"
docx-rs = "*"
epub-builder = "*"
epub = "*"
