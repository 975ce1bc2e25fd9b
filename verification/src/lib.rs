//! Software-defined O-QPSK transmitter core for IEEE 802.15.4.
//!
//! The crate turns a payload into the stream of 32-bit words that drives a
//! one-pin timed-output peripheral. [`packet`] builds the physical frame and
//! [`checksum`] its frame check sequence; [`pio_bytecode_gen`] spreads the
//! frame's bytes into offset chips, shapes the chips into pulse runs, codes
//! the run lengths in unary and packs the bits into words. The mathematical
//! model of each stage stands with the laws proved of it in [`chips`],
//! [`waveform`] and [`words`]. [`hex`] reads bytes from a string of digits,
//! and [`bounded`] is the fixed-capacity vector that frames come in.
pub mod bounded;
pub mod checksum;
pub mod chips;
pub mod hex;
pub mod packet;
pub mod pio_bytecode_gen;
pub mod waveform;
pub mod words;
