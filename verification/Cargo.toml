[package]
name = "digicompass"
version = "0.1.0"
edition = "2021"
publish = false

[dependencies]
bno080 = "=0.1.3"
cortex-m = "=0.7.10"
cortex-m-rt = "=0.7.7"
critical-section = "=1.2.0"
defmt = "=1.2.0"
embedded-alloc = "=0.7.0"
embedded-graphics = "=0.8.2"
embedded-hal = "=1.0.0"
embedded-hal-bus = "=0.3.0"
embedded-io = "=0.6.1"
embedded-sdmmc = "=0.9.0"
fugit = "=0.3.9"
heapless = "=0.8.0"
hifijson = "=0.2.3"
libm = "=0.2.16"
nalgebra = "=0.33.3"
nb = "=1.1.0"
postcard = { version = "=1.1.3", features = ["embedded-io-06", "alloc"] }
rp2040-hal = { version = "=0.11.0", features = ["critical-section-impl", "rt"] }
rstar = { version = "=0.14.0", features = ["serde"] }
serde = { version = "=1.0.229", features = ["derive"] }
sh1106 = "=0.5.0"
smart-leds = "=0.4.0"
thiserror = "=2.0.21"
uom = "=0.38.0"
usb-device = "=0.3.2"
usbd-serial = "=0.2.2"
world_magnetic_model = "=1.2025.0"
ws2812-pio = "=0.9.0"
