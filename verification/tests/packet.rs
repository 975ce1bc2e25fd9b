use pico_qpsk::checksum::frame_check_sequence;
use pico_qpsk::packet::{
    mac_frame_to_vec, FooterMode, FrameConstructionError, MacFrame, PanId, PhysicalFrame,
    ShortAddress, MAX_FRAME_OVERHEAD,
};

const MAX_PAYLOAD_SIZE: usize = 4;
const MAX_FRAME_SIZE: usize = MAX_PAYLOAD_SIZE + MAX_FRAME_OVERHEAD;

fn sample_mac_frame(payload: &[u8]) -> MacFrame<'_> {
    MacFrame {
        sequence_num: 1,
        destination_id: PanId(0x4444),
        destination: ShortAddress(0xABCD),
        source_id: PanId(0x2222),
        source: ShortAddress(0x1234),
        payload,
        footer: [0x12, 0x34],
    }
}

#[test]
fn max_frame_size_adds_the_overhead() {
    assert_eq!(MAX_FRAME_OVERHEAD, 35);
    assert_eq!(MAX_FRAME_SIZE, 39);
}

#[test]
fn end_to_end_frame_bytes() {
    let payload: [u8; 4] = [0x01, 0x02, 0x0A, 0x0B];
    let frame: PhysicalFrame<MAX_FRAME_SIZE> = PhysicalFrame::new(
        1,
        PanId(0x2222),
        ShortAddress(0x1234),
        PanId(0x4444),
        ShortAddress(0xABCD),
        &payload,
    )
    .unwrap();
    let bytes = frame.to_bytes().unwrap();
    let expected: [u8; 23] = [
        0x00, 0x00, 0x00, 0x00, 0xA7, 0x11, 0x01, 0x98, 0x01, 0x44, 0x44, 0xCD, 0xAB, 0x22, 0x22,
        0x34, 0x12, 0x01, 0x02, 0x0A, 0x0B, 0x24, 0xD9,
    ];
    assert_eq!(bytes.as_slice(), &expected[..]);
    assert_eq!(bytes.len(), 23);
    assert_eq!(bytes.capacity(), MAX_FRAME_SIZE);
}

#[test]
fn frame_with_ends_exchanged() {
    let payload: [u8; 4] = [0x01, 0x02, 0x0A, 0x0B];
    let frame: PhysicalFrame<MAX_FRAME_SIZE> = PhysicalFrame::new(
        1,
        PanId(0x4444),
        ShortAddress(0xABCD),
        PanId(0x2222),
        ShortAddress(0x1234),
        &payload,
    )
    .unwrap();
    let bytes = frame.to_bytes().unwrap();
    let expected: [u8; 23] = [
        0x00, 0x00, 0x00, 0x00, 0xA7, 0x11, 0x01, 0x98, 0x01, 0x22, 0x22, 0x34, 0x12, 0x44, 0x44,
        0xCD, 0xAB, 0x01, 0x02, 0x0A, 0x0B, 0x20, 0x96,
    ];
    assert_eq!(bytes.as_slice(), &expected[..]);
}

#[test]
fn frame_building_is_repeatable() {
    let payload: [u8; 4] = [0x01, 0x02, 0x0A, 0x0B];
    let first: PhysicalFrame<MAX_FRAME_SIZE> = PhysicalFrame::new(
        1,
        PanId(0x2222),
        ShortAddress(0x1234),
        PanId(0x4444),
        ShortAddress(0xABCD),
        &payload,
    )
    .unwrap();
    let second: PhysicalFrame<MAX_FRAME_SIZE> = PhysicalFrame::new(
        1,
        PanId(0x2222),
        ShortAddress(0x1234),
        PanId(0x4444),
        ShortAddress(0xABCD),
        &payload,
    )
    .unwrap();
    assert_eq!(first.to_bytes().unwrap().as_slice(), second.to_bytes().unwrap().as_slice());
    assert_eq!(first.to_bytes().unwrap().as_slice(), first.to_bytes().unwrap().as_slice());
}

#[test]
fn mac_frame_without_footer() {
    let payload: [u8; 2] = [0xDE, 0xF0];
    let bytes = mac_frame_to_vec::<32>(sample_mac_frame(&payload), FooterMode::Omitted).unwrap();
    let expected: [u8; 13] =
        [0x01, 0x98, 0x01, 0x44, 0x44, 0xCD, 0xAB, 0x22, 0x22, 0x34, 0x12, 0xDE, 0xF0];
    assert_eq!(bytes.as_slice(), &expected[..]);
}

#[test]
fn mac_frame_with_footer() {
    let payload: [u8; 2] = [0xDE, 0xF0];
    let bytes = mac_frame_to_vec::<32>(sample_mac_frame(&payload), FooterMode::Explicit).unwrap();
    let expected: [u8; 15] = [
        0x01, 0x98, 0x01, 0x44, 0x44, 0xCD, 0xAB, 0x22, 0x22, 0x34, 0x12, 0xDE, 0xF0, 0x12, 0x34,
    ];
    assert_eq!(bytes.as_slice(), &expected[..]);
}

#[test]
fn mac_frame_fills_its_buffer_exactly() {
    let payload: [u8; 2] = [0xDE, 0xF0];
    assert!(mac_frame_to_vec::<13>(sample_mac_frame(&payload), FooterMode::Omitted).is_ok());
    assert!(mac_frame_to_vec::<15>(sample_mac_frame(&payload), FooterMode::Explicit).is_ok());
    let empty: [u8; 0] = [];
    assert!(mac_frame_to_vec::<11>(sample_mac_frame(&empty), FooterMode::Omitted).is_ok());
}

#[test]
fn mac_frame_too_long_for_buffer() {
    let payload: [u8; 2] = [0xDE, 0xF0];
    let short = mac_frame_to_vec::<12>(sample_mac_frame(&payload), FooterMode::Omitted);
    assert!(matches!(short, Err(FrameConstructionError::FrameWrite(byte::Error::Incomplete))));
    let short = mac_frame_to_vec::<14>(sample_mac_frame(&payload), FooterMode::Explicit);
    assert!(matches!(short, Err(FrameConstructionError::FrameWrite(_))));
    let short = mac_frame_to_vec::<0>(sample_mac_frame(&payload), FooterMode::Omitted);
    assert!(matches!(short, Err(FrameConstructionError::FrameWrite(_))));
}

#[test]
fn new_refuses_payload_beyond_buffer() {
    let payload: [u8; 5] = [1, 2, 3, 4, 5];
    let made: Result<PhysicalFrame<15>, FrameConstructionError> = PhysicalFrame::new(
        1,
        PanId(0x2222),
        ShortAddress(0x1234),
        PanId(0x4444),
        ShortAddress(0xABCD),
        &payload,
    );
    assert!(matches!(made, Err(FrameConstructionError::FrameWrite(_))));
    let made: Result<PhysicalFrame<16>, FrameConstructionError> = PhysicalFrame::new(
        1,
        PanId(0x2222),
        ShortAddress(0x1234),
        PanId(0x4444),
        ShortAddress(0xABCD),
        &payload,
    );
    assert!(made.is_ok());
}

#[test]
fn to_bytes_frame_write_error() {
    // header and payload fit sixteen bytes, the footer does not
    let payload: [u8; 5] = [1, 2, 3, 4, 5];
    let frame: PhysicalFrame<16> = PhysicalFrame::new(
        1,
        PanId(0x2222),
        ShortAddress(0x1234),
        PanId(0x4444),
        ShortAddress(0xABCD),
        &payload,
    )
    .unwrap();
    assert!(matches!(frame.to_bytes(), Err(FrameConstructionError::FrameWrite(_))));
}

#[test]
fn to_bytes_vec_len_error() {
    // the MAC frame takes eighteen bytes, the physical frame twenty-four
    let payload: [u8; 5] = [1, 2, 3, 4, 5];
    let frame: PhysicalFrame<23> = PhysicalFrame::new(
        1,
        PanId(0x2222),
        ShortAddress(0x1234),
        PanId(0x4444),
        ShortAddress(0xABCD),
        &payload,
    )
    .unwrap();
    assert!(matches!(frame.to_bytes(), Err(FrameConstructionError::VecLen)));
    let frame: PhysicalFrame<24> = PhysicalFrame::new(
        1,
        PanId(0x2222),
        ShortAddress(0x1234),
        PanId(0x4444),
        ShortAddress(0xABCD),
        &payload,
    )
    .unwrap();
    assert_eq!(frame.to_bytes().unwrap().len(), 24);
}

#[test]
fn to_bytes_mac_frame_length_error() {
    let payload: Vec<u8> = vec![0x55u8; 243];
    let frame: PhysicalFrame<300> = PhysicalFrame::new(
        1,
        PanId(0x2222),
        ShortAddress(0x1234),
        PanId(0x4444),
        ShortAddress(0xABCD),
        &payload,
    )
    .unwrap();
    assert!(matches!(frame.to_bytes(), Err(FrameConstructionError::MacFrameLength)));
}

#[test]
fn longest_mac_frame_has_length_255() {
    let payload: Vec<u8> = vec![0x55u8; 242];
    let frame: PhysicalFrame<300> = PhysicalFrame::new(
        1,
        PanId(0x2222),
        ShortAddress(0x1234),
        PanId(0x4444),
        ShortAddress(0xABCD),
        &payload,
    )
    .unwrap();
    let bytes = frame.to_bytes().unwrap();
    assert_eq!(bytes.len(), 261);
    assert_eq!(bytes.as_slice()[5], 255);
    assert_eq!(&bytes.as_slice()[17..259], &payload[..]);
}

#[test]
fn checksum_known_vectors() {
    assert_eq!(frame_check_sequence(b"123456789"), [0x89, 0x21]);
    assert_eq!(frame_check_sequence(b""), [0x00, 0x00]);
    assert_eq!(frame_check_sequence(&[0x00]), [0x00, 0x00]);
    assert_eq!(frame_check_sequence(&[0x01]), [0x89, 0x11]);
}

#[test]
fn checksum_of_frame_with_empty_payload() {
    let payload: [u8; 0] = [];
    let frame: PhysicalFrame<MAX_FRAME_SIZE> = PhysicalFrame::new(
        1,
        PanId(0x2222),
        ShortAddress(0x1234),
        PanId(0x4444),
        ShortAddress(0xABCD),
        &payload,
    )
    .unwrap();
    let bytes = frame.to_bytes().unwrap();
    assert_eq!(bytes.len(), 19);
    assert_eq!(bytes.as_slice()[5], 13);
    assert_eq!(&bytes.as_slice()[17..], &[0xCD, 0xA7]);
}

#[test]
fn checksum_of_frame_with_full_payload() {
    let payload: [u8; 4] = [0x01, 0x02, 0x0A, 0x0B];
    let frame: PhysicalFrame<MAX_FRAME_SIZE> = PhysicalFrame::new(
        1,
        PanId(0x2222),
        ShortAddress(0x1234),
        PanId(0x4444),
        ShortAddress(0xABCD),
        &payload,
    )
    .unwrap();
    let bytes = frame.to_bytes().unwrap();
    assert_eq!(&bytes.as_slice()[21..], &[0x24, 0xD9]);
    assert_eq!(frame_check_sequence(&bytes.as_slice()[6..21]), [0x24, 0xD9]);
}

#[test]
fn checksum_of_frame_with_longest_standard_payload() {
    let payload: Vec<u8> = (0u8..116).collect();
    let frame: PhysicalFrame<151> = PhysicalFrame::new(
        7,
        PanId(0x2222),
        ShortAddress(0x1234),
        PanId(0x4444),
        ShortAddress(0xABCD),
        &payload,
    )
    .unwrap();
    let bytes = frame.to_bytes().unwrap();
    assert_eq!(bytes.len(), 135);
    assert_eq!(bytes.as_slice()[5], 129);
    assert_eq!(&bytes.as_slice()[133..], &[0xCD, 0x5D]);
}

#[test]
fn checksum_of_a_checked_frame_is_zero() {
    // a CRC without final XOR, appended low byte first, leaves the register at zero
    let payload: [u8; 4] = [0x01, 0x02, 0x0A, 0x0B];
    let frame: PhysicalFrame<MAX_FRAME_SIZE> = PhysicalFrame::new(
        1,
        PanId(0x2222),
        ShortAddress(0x1234),
        PanId(0x4444),
        ShortAddress(0xABCD),
        &payload,
    )
    .unwrap();
    let bytes = frame.to_bytes().unwrap();
    assert_eq!(frame_check_sequence(&bytes.as_slice()[6..]), [0x00, 0x00]);
}
