[package]
name = "crowc"
version = "0.1.0"
edition = "2021"
publish = false

[dependencies]
cranelift-codegen = "=0.132.3"
cranelift-frontend = "=0.132.3"
cranelift-module = "=0.132.3"
cranelift-native = "=0.132.3"
cranelift-object = "=0.132.3"
libc = "0.2"
target-lexicon = "0.13"
