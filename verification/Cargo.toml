[package]
name = "kernel_heap"
version = "0.1.0"
edition = "2021"
publish = false

[dependencies]
linked_list_allocator = { version = "=0.10.6", default-features = false }
spin = "=0.5.2"
x86_64 = { version = "=0.15.5", default-features = false, features = ["instructions"] }
volatile = "=0.2.7"
lazy_static = { version = "=1.5.1", features = ["spin_no_std"] }
uart_16550 = "=0.3.2"
pc-keyboard = "=0.5.1"
pic8259 = "*"
bootloader = { version = "=0.9.35", features = ["map_physical_memory"] }
