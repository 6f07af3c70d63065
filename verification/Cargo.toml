[package]
name = "wav_stego"
version = "0.1.0"
edition = "2021"
publish = false

[dependencies]
bitvec = "1"
clap = "4"
hound = "3"
plotters = "0.3"
