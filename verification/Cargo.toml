[package]
name = "photoman-core"
version = "0.1.0"
edition = "2021"
publish = false

[dependencies]
rusqlite = "=0.40.2"
google-drive3 = "=1.0.14"
yup-oauth2 = "=1.0.12"
hyper = "=0.10.16"
hyper-native-tls = "=0.3.0"
neon = "1"
