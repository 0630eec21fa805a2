[package]
name = "dynon_usb_updater"
version = "0.1.0"
edition = "2021"
publish = false

[dependencies]
anyhow = "1"
sha2 = "0.10"
zip = { version = "2", default-features = false, features = ["deflate"] }
gtk4 = "0.9"
libadwaita = "0.7"
soup3 = "*"
ashpd = "*"
ksni = "0.3"

[dev-dependencies]
regex = "1"
