[package]
name = "httpd"
version = "0.1.0"
edition = "2021"
publish = false

[dependencies]
futures = "0.1"
hyper = "0.12"
log = "0.4"
percent-encoding = "1.0"
