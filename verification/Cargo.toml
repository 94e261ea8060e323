[package]
name = "kernel"
version = "0.1.0"
edition = "2021"
publish = false

[dependencies]
x86_64 = { version = "0.15", default-features = false, features = ["instructions"] }
bootloader_api = "0.11"
spin = "0.9"
crossbeam-queue = { version = "0.3", default-features = false, features = ["alloc"] }
pc-keyboard = "*"
ps2-mouse = "*"
raw-cpuid = "*"
uart_16550 = "*"
goblin = "*"
ovmf-prebuilt = "*"
