[package]
name = "stm32_mass_storage"
version = "0.1.0"
edition = "2021"
publish = false

[dependencies]
anyhow = "=1.0.104"
bindgen = "=0.73.2"
cortex-m = { version = "=0.7.10", features = ["critical-section-single-core"] }
defmt = "=1.2.0"
defmt-rtt = "=1.3.1"
fatfs = "=0.3.6"
md-5 = "=0.10.6"
panic-probe = { version = "=1.0.0", features = ["print-defmt"] }
reqwest = { version = "0.12", default-features = false, features = ["blocking", "rustls-tls"] }
rtic = { version = "=2.4.0", features = ["thumbv7-backend"] }
sha2 = "=0.10.9"
static_cell = "=2.1.1"
stm32-device-signature = { version = "=0.3.3", features = ["stm32f4"] }
stm32f4xx-hal = { version = "=0.23.0", features = ["stm32f401", "usb_fs"] }
usb-device = "=0.3.2"
usbd-storage = { version = "=1.0.0", features = ["bbb", "scsi"] }
zip = { version = "=2.6.1", default-features = false, features = ["deflate"] }
zx0 = "=1.0.0"
