[package]
name = "pico2w_shell"
version = "0.1.0"
edition = "2021"
publish = false

[dependencies]
heapless = "0.8"
littlefs2 = "0.5"
embassy-executor = "*"
embassy-net = "*"
embassy-rp = "*"
embassy-sync = "*"
embassy-time = "*"
embassy-futures = "*"
embedded-io-async = "*"
embedded-hal-nb = "*"
nb = "*"
cortex-m = "*"
cyw43 = "*"
cyw43-pio = "*"
static_cell = "*"
defmt = "*"
defmt-rtt = "*"
panic-probe = "*"
panic-halt = "*"
trouble-host = "*"
