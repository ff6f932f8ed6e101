[package]
name = "entity_set"
version = "0.1.0"
edition = "2021"
publish = false

[dependencies]
cranelift-entity = "=0.128.4"
