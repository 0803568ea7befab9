[package]
name = "pyrs_yaml_core"
version = "0.1.0"
edition = "2021"
publish = false

[dependencies]
regex = "1"
saphyr-parser = "*"
granit-parser = "*"
rust-i18n = "3"
thiserror = "2"
indexmap = "2"
serde_json = "1"
