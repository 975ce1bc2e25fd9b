[package]
name = "pico_qpsk"
version = "0.1.0"
edition = "2021"
publish = false

[dependencies]
byte = "=0.2.7"
cortex-m = "=0.7.10"
cortex-m-rt = "=0.7.7"
crc_all = "=0.2.2"
defmt-rtt = "=0.4.2"
embedded-hal = "=1.0.0"
heapless = "=0.8.0"
ieee802154 = "=0.6.1"
panic-probe = "=0.3.2"
pio = "=0.2.1"
pio-proc = "=0.2.2"
rp-pico = "=0.9.0"
