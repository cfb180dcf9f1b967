[package]
name = "loopslcr"
version = "0.4.0"
edition = "2021"
publish = false

[dependencies]
clap = { version = "4", features = ["derive"] }
clap_complete = "4"
rayon = "1"
thiserror = "2"
jni = "0.21"
