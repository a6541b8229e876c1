[package]
name = "rjmp-stm32-flash"
version = "0.1.0"
edition = "2021"
publish = false

[dependencies]
cortex-m = "0.7"
embedded-io = "0.6"
embedded-storage = "0.3"
stm32-metapac = { version = "*", features = ["stm32g431cb"] }
