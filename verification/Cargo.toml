[package]
name = "sms_tg"
version = "0.1.0"
edition = "2021"
publish = false

[dependencies]
defmt = "*"
embassy-executor = "*"
embassy-time = "*"
esp-alloc = "*"
esp-backtrace = "*"
esp-bootloader-esp-idf = "*"
esp-hal = "*"
esp-println = "*"
esp-rtos = "*"
