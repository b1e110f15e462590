[package]
name = "ts_schema"
version = "0.1.0"
edition = "2021"
publish = false

[dependencies]
anyhow = "*"
swc_common = "*"
swc_ecma_ast = "*"
swc_ecma_parser = "*"
swc_ecma_visit = "*"

[dev-dependencies]
serde_json = "*"
