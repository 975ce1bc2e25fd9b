//! Bytes written as hexadecimal digits, two digits to a byte.
use vstd::prelude::*;
use vstd::string::StrSliceExecFns;
use crate::bounded::BoundedBytes;

verus! {

/// The value of a hexadecimal digit, of either case.
pub open spec fn hex_digit_value(c: char) -> Option<u8> {
    if '0' <= c <= '9' {
        Some((c as u32 - '0' as u32) as u8)
    } else if 'a' <= c <= 'f' {
        Some((c as u32 - 'a' as u32 + 10) as u8)
    } else if 'A' <= c <= 'F' {
        Some((c as u32 - 'A' as u32 + 10) as u8)
    } else {
        None
    }
}

/// Every character is a hexadecimal digit.
pub open spec fn is_hex_digits(chars: Seq<char>) -> bool {
    forall|i: int| 0 <= i < chars.len() ==> (#[trigger] hex_digit_value(chars[i])) is Some
}

/// The bytes that a digit string spells: of each two digits the first is the
/// high nibble, the second the low nibble. A last digit without a partner
/// spells nothing.
pub open spec fn hex_decoded(chars: Seq<char>) -> Seq<u8> {
    Seq::new(
        chars.len() / 2,
        |i: int|
            (16 * hex_digit_value(chars[2 * i]).unwrap() + hex_digit_value(
                chars[2 * i + 1],
            ).unwrap()) as u8,
    )
}

/// The value of the hexadecimal digit with ASCII code `code`.
fn hex_digit(code: u8) -> (value: Option<u8>)
    ensures
        value == hex_digit_value(code as char),
        value matches Some(digit) ==> digit < 16,
{
    if 0x30 <= code && code <= 0x39 {
        Some(code - 0x30)
    } else if 0x61 <= code && code <= 0x66 {
        Some(code - 0x61 + 10)
    } else if 0x41 <= code && code <= 0x46 {
        Some(code - 0x41 + 10)
    } else {
        None
    }
}

/// Whether a string is made of hexadecimal digits only.
pub fn is_hex_string(message_str: &str) -> (hex: bool)
    ensures
        hex == is_hex_digits(message_str@),
{
    if !message_str.is_ascii() {
        assert(!is_hex_digits(message_str@)) by {
            if is_hex_digits(message_str@) {
                assert forall|i: int| 0 <= i < message_str@.len() implies '\0'
                    <= #[trigger] message_str@[i] <= '\u{7f}' by {
                    assert(hex_digit_value(message_str@[i]) is Some);
                }
            }
        }
        return false;
    }
    let len = message_str.unicode_len();
    let mut done: usize = 0;
    while done < len
        invariant
            done <= len,
            len == message_str@.len(),
            message_str.is_ascii(),
            is_hex_digits(message_str@.take(done as int)),
        decreases len - done,
    {
        let code = message_str.get_ascii(done);
        if hex_digit(code).is_none() {
            assert(hex_digit_value(message_str@[done as int]) is None);
            return false;
        }
        assert forall|i: int| 0 <= i < done + 1 implies (#[trigger] hex_digit_value(
            message_str@.take(done + 1)[i],
        )) is Some by {
            if i < done {
                assert(hex_digit_value(message_str@.take(done as int)[i]) is Some);
            }
        }
        done = done + 1;
    }
    assert(message_str@.take(done as int) =~= message_str@);
    true
}

/// The bytes that a string of hexadecimal digits spells, in a vector of
/// capacity `MAX_VEC_SIZE`.
pub fn get_hex_string_as_bytes<const MAX_VEC_SIZE: usize>(message_str: &str) -> (bytes:
    BoundedBytes<MAX_VEC_SIZE>)
    requires
        is_hex_digits(message_str@),
        message_str@.len() / 2 <= MAX_VEC_SIZE,
    ensures
        bytes@ == hex_decoded(message_str@),
        bytes.wf(),
{
    assert(message_str.is_ascii()) by {
        assert forall|i: int| 0 <= i < message_str@.len() implies '\0'
            <= #[trigger] message_str@[i] <= '\u{7f}' by {
            assert(hex_digit_value(message_str@[i]) is Some);
        }
    }
    let len = message_str.unicode_len();
    let pairs = len / 2;
    let mut bytes: BoundedBytes<MAX_VEC_SIZE> = BoundedBytes::new();
    let mut done: usize = 0;
    while done < pairs
        invariant
            done <= pairs,
            len == message_str@.len(),
            pairs == len / 2,
            pairs <= MAX_VEC_SIZE,
            message_str.is_ascii(),
            is_hex_digits(message_str@),
            bytes.wf(),
            bytes@.len() == done,
            forall|i: int| 0 <= i < done ==> bytes@[i] == #[trigger] hex_decoded(message_str@)[i],
        decreases pairs - done,
    {
        let high = hex_digit(message_str.get_ascii(2 * done));
        let low = hex_digit(message_str.get_ascii(2 * done + 1));
        assert(hex_digit_value(message_str@[2 * done]) is Some);
        assert(hex_digit_value(message_str@[2 * done + 1]) is Some);
        if let (Some(a), Some(b)) = (high, low) {
            assert(a << 4u8 | b == 16 * a + b) by (bit_vector)
                requires
                    a < 16,
                    b < 16,
            ;
            let pushed = bytes.push(a << 4u8 | b);
            assert(pushed is Ok);
        }
        done = done + 1;
    }
    assert(bytes@ =~= hex_decoded(message_str@));
    bytes
}

} // verus!
