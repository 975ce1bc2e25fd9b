//! The frame check sequence of IEEE 802.15.4: a 16-bit CRC with polynomial
//! `0x1021`, register initially zero, input and output bit-reflected, no
//! final XOR.
use vstd::prelude::*;
use crc_all::CrcAlgo;

verus! {

/// The generator polynomial `x^16 + x^12 + x^5 + 1`, without its top term.
pub const CRC_POLYNOMIAL: u16 = 0x1021;

/// The polynomial with its bits in reverse order, as the reflected
/// computation uses it.
pub const CRC_POLYNOMIAL_REFLECTED: u16 = 0x8408;

/// One division step of the reflected computation: the register moves one
/// bit to the right, and the polynomial is subtracted when a one fell out.
pub open spec fn crc16_shift(register: u16) -> u16 {
    if register & 1 == 1 {
        (register >> 1) ^ CRC_POLYNOMIAL_REFLECTED
    } else {
        register >> 1
    }
}

/// The remainder that one byte leaves: eight division steps.
pub open spec fn crc16_byte(byte: u8) -> u16 {
    crc16_shift(
        crc16_shift(
            crc16_shift(
                crc16_shift(crc16_shift(crc16_shift(crc16_shift(crc16_shift(byte as u16))))),
            ),
        ),
    )
}

/// The CRC register after `data`: each byte is folded into the low half of
/// the register, which then moves on by eight division steps.
pub open spec fn crc16(data: Seq<u8>) -> u16
    decreases data.len(),
{
    if data.len() == 0 {
        0
    } else {
        let register = crc16(data.drop_last());
        (register >> 8) ^ crc16_byte(((register & 0xff) as u8) ^ data.last())
    }
}

/// A 16-bit value as two bytes, the low byte first.
pub open spec fn le_bytes(value: u16) -> Seq<u8> {
    seq![(value % 256) as u8, (value / 256) as u8]
}

/// The CRC register after `data`, computed by `crc_all`.
///
/// Trusted: `crc_all::CrcAlgo::<u16>::new(0x1021, 16, 0, 0, true)` builds the
/// reflected algorithm, whose table entry for a byte is that byte after eight
/// steps of "shift right, XOR `0x8408` when a one fell out"; `init_crc` sets
/// the register to zero, and `update_crc` replaces it, byte by byte, with
/// the register shifted right by eight XOR the table entry for the register's
/// low byte XOR the data byte. That is `crc16`.
#[verifier::external_body]
fn crc16_register(data: &[u8]) -> (register: u16)
    ensures
        register == crc16(data@),
{
    let algorithm = CrcAlgo::<u16>::new(0x1021, 16, 0, 0, true);
    let mut register = 0u16;
    algorithm.init_crc(&mut register);
    algorithm.update_crc(&mut register, data);
    register
}

/// The frame check sequence of `data`: its CRC, low byte first.
pub fn frame_check_sequence(data: &[u8]) -> (footer: [u8; 2])
    ensures
        footer@ == le_bytes(crc16(data@)),
{
    let register = crc16_register(data);
    assert((register & 0xff) as u8 == (register % 256) as u8 && (register >> 8) as u8 == (register
        / 256) as u8) by (bit_vector);
    let footer: [u8; 2] = [(register & 0xff) as u8, (register >> 8) as u8];
    assert(footer@ =~= le_bytes(crc16(data@)));
    footer
}

} // verus!
