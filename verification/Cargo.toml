[package]
name = "fallow"
version = "0.1.0"
edition = "2021"
publish = false

[dependencies]
regex = "=1.13.1"
fixedbitset = "=0.5.7"
serde = { version = "=1.0.229", features = ["derive"] }
serde_json = "=1.0.154"
ls-types = "=0.0.6"
oxc_allocator = "=0.146.0"
oxc_ast = "=0.146.0"
oxc_ast_visit = "=0.146.0"
oxc_parser = "=0.146.0"
oxc_semantic = "=0.146.0"
oxc_span = "=0.146.0"
oxc_str = "=0.146.0"
rustc-hash = "=2.1.3"
