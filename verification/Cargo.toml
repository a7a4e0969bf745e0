[package]
name = "rusty_rtos_heap_core"
version = "0.1.0"
edition = "2021"
publish = false

[dependencies]
rusty_rtos_core = "*"
