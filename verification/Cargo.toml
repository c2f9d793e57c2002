[package]
name = "linker_lang"
version = "0.2.0"
edition = "2021"
publish = false

[dependencies]
serde = { version = "1", features = ["derive"] }

[dev-dependencies]
codegen-lang = "*"
ir-lang = "*"
