[package]
name = "embedded_recruitment_task"
version = "0.1.0"
edition = "2021"
publish = false

[dependencies]
prost = "0.13"
log = "0.4"
threadpool = "1.8"
