[package]
name = "lilith"
version = "0.1.0"
edition = "2021"
publish = false

[dependencies]
x86_64 = { version = "*", default-features = false, features = ["instructions"] }
xmas-elf = "*"
arrayvec = { version = "*", default-features = false }
spin = "*"
lazy_static = { version = "*", features = ["spin_no_std"] }
pic8259 = "*"
uart_16550 = "*"
volatile = "*"

[dev-dependencies]
fastrand = "*"
