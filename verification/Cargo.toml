[package]
name = "vue-scanner"
version = "0.1.0"
edition = "2021"
publish = false

[dependencies]
regex = "=1.13.1"
miette = "=7.6.0"
thiserror = "=2.0.21"
clap = { version = "=4.6.7", features = ["derive"] }
ignore = "0.4"
