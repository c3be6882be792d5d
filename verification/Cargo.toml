[package]
name = "audio_engine"
version = "0.1.0"
edition = "2021"
publish = false

[dependencies]
slotmap = "1"
bumpalo = "3"
cpal = "0.15"
midir = "0.9"
hound = "3.5"
basedrop = "0.1"
ringbuf-basedrop = "*"
thiserror = "1"
