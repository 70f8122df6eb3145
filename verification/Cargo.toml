[package]
name = "audio-file"
version = "0.5.0"
edition = "2021"
publish = false

[dependencies]
audio-blocks = "=0.7.0"
audioadapter-buffers = "=4.0.0"
num = "=0.4.3"
num-traits = "=0.2.19"
rubato = "=4.0.0"
symphonia = { version = "=0.6.1", features = ["all"] }
thiserror = "=2.0.21"
