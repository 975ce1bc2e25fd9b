use pico_qpsk::pio_bytecode_gen::{
    add_middle, add_middle_bits_for_o_qpsk, chips_to_waves, combine_waves, convert, encode,
    generate, get_chip_sequences, hex_to_chips, lengths_to_pio_byte_code_ints, levels_to_ints,
    merge_runs, pack, pack_bits_into_u32, repeat1, repeat4, repeater, swap, swap_and_split_fn,
};
use pico_qpsk::waveform::Level;

const FRAME: [u8; 23] = [
    0x00, 0x00, 0x00, 0x00, 0xA7, 0x11, 0x01, 0x98, 0x01, 0x44, 0x44, 0xCD, 0xAB, 0x22, 0x22, 0x34,
    0x12, 0x01, 0x02, 0x0A, 0x0B, 0x24, 0xD9,
];

fn fold(words: &[u32]) -> u64 {
    let mut hash: u64 = 0;
    for word in words {
        hash = hash.wrapping_mul(31).wrapping_add(u64::from(*word));
    }
    hash
}

#[test]
fn nibbles_of_a_byte_low_first() {
    assert_eq!(swap_and_split_fn(&0xA7), [0x7, 0xA]);
    assert_eq!(swap_and_split_fn(&0x00), [0x0, 0x0]);
    assert_eq!(swap_and_split_fn(&0xFF), [0xF, 0xF]);
    assert_eq!(swap_and_split_fn(&0x0F), [0xF, 0x0]);
}

#[test]
fn nibbles_of_a_byte_stream() {
    assert_eq!(swap(&[0xAB, 0xCD]), vec![0xB, 0xA, 0xD, 0xC]);
    assert_eq!(swap(&[]), Vec::<u8>::new());
}

#[test]
fn spreading_table_rows() {
    let table: [[u8; 16]; 16] = [
        [3, 1, 2, 1, 3, 0, 0, 3, 1, 1, 0, 2, 0, 2, 3, 2],
        [3, 2, 3, 1, 2, 1, 3, 0, 0, 3, 1, 1, 0, 2, 0, 2],
        [0, 2, 3, 2, 3, 1, 2, 1, 3, 0, 0, 3, 1, 1, 0, 2],
        [0, 2, 0, 2, 3, 2, 3, 1, 2, 1, 3, 0, 0, 3, 1, 1],
        [1, 1, 0, 2, 0, 2, 3, 2, 3, 1, 2, 1, 3, 0, 0, 3],
        [0, 3, 1, 1, 0, 2, 0, 2, 3, 2, 3, 1, 2, 1, 3, 0],
        [3, 0, 0, 3, 1, 1, 0, 2, 0, 2, 3, 2, 3, 1, 2, 1],
        [2, 1, 3, 0, 0, 3, 1, 1, 0, 2, 0, 2, 3, 2, 3, 1],
        [2, 0, 3, 0, 2, 1, 1, 2, 0, 0, 1, 3, 1, 3, 2, 3],
        [2, 3, 2, 0, 3, 0, 2, 1, 1, 2, 0, 0, 1, 3, 1, 3],
        [1, 3, 2, 3, 2, 0, 3, 0, 2, 1, 1, 2, 0, 0, 1, 3],
        [1, 3, 1, 3, 2, 3, 2, 0, 3, 0, 2, 1, 1, 2, 0, 0],
        [0, 0, 1, 3, 1, 3, 2, 3, 2, 0, 3, 0, 2, 1, 1, 2],
        [1, 2, 0, 0, 1, 3, 1, 3, 2, 3, 2, 0, 3, 0, 2, 1],
        [2, 1, 1, 2, 0, 0, 1, 3, 1, 3, 2, 3, 2, 0, 3, 0],
        [3, 0, 2, 1, 1, 2, 0, 0, 1, 3, 1, 3, 2, 3, 2, 0],
    ];
    for symbol in 0u8..16 {
        assert_eq!(hex_to_chips(symbol), table[usize::from(symbol)]);
    }
}

#[test]
fn spreading_table_integrity() {
    for symbol in 0u8..16 {
        let chips = hex_to_chips(symbol);
        assert_eq!(chips.len(), 16);
        assert!(chips.iter().all(|chip| *chip <= 3));
    }
}

#[test]
fn spreading_table_is_shifted_and_conjugated() {
    let base = hex_to_chips(0);
    for symbol in 0u8..16 {
        let chips = hex_to_chips(symbol);
        for i in 0usize..16 {
            let turned = base[(i + 16 - 2 * usize::from(symbol % 8)) % 16];
            assert_eq!(chips[i], turned ^ (symbol / 8));
        }
    }
}

#[test]
fn chips_of_a_symbol_stream() {
    let chips = get_chip_sequences(&[0x7, 0xA]);
    assert_eq!(chips.len(), 32);
    assert_eq!(&chips[..16], &hex_to_chips(0x7)[..]);
    assert_eq!(&chips[16..], &hex_to_chips(0xA)[..]);
    assert_eq!(get_chip_sequences(&[]), Vec::<u8>::new());
}

#[test]
fn middle_chip_takes_q_from_prev_and_i_from_current() {
    let mut prev: u8 = 0b11;
    assert_eq!(add_middle(&mut prev, 0b00), Some([0b01, 0b00]));
    assert_eq!(prev, 0b00);
    assert_eq!(add_middle(&mut prev, 0b11), Some([0b10, 0b11]));
    assert_eq!(prev, 0b11);
    assert_eq!(add_middle(&mut prev, 0b11), Some([0b11, 0b11]));
    let mut prev: u8 = 0b01;
    assert_eq!(add_middle(&mut prev, 0b10), Some([0b11, 0b10]));
    assert_eq!(prev, 0b10);
}

#[test]
fn offset_stream_drops_the_seed_chip() {
    assert_eq!(add_middle_bits_for_o_qpsk(&[0b11, 0b00, 0b10]), vec![0b11, 0b01, 0b00, 0b10, 0b10]);
    assert_eq!(add_middle_bits_for_o_qpsk(&[0b10]), vec![0b10]);
    assert_eq!(add_middle_bits_for_o_qpsk(&[]), Vec::<u8>::new());
}

#[test]
fn repeaters() {
    assert_eq!(repeater(2, 8), vec![8, 8]);
    assert_eq!(repeater(0, 8), Vec::<u8>::new());
    assert_eq!(repeater(255, 1).len(), 255);
    assert_eq!(repeat4(3), vec![3, 3, 3, 3]);
    assert_eq!(repeat1(2), vec![2]);
}

#[test]
fn chip_encoder_at_full_rate() {
    let chips = encode(&[0xA7], repeat1);
    let expected: [u8; 63] = [
        2, 0, 1, 3, 3, 1, 0, 0, 0, 2, 3, 1, 1, 1, 1, 1, 0, 2, 2, 0, 0,
        2, 2, 2, 3, 3, 2, 2, 3, 1, 1, 1, 1, 3, 3, 3, 2, 2, 3, 3, 2, 0,
        0, 2, 3, 1, 0, 2, 2, 0, 1, 1, 1, 3, 2, 0, 0, 0, 0, 0, 1, 3, 3,
    ];
    assert_eq!(chips, expected.to_vec());
}

#[test]
fn chip_encoder_oversampled() {
    let once = encode(&[0xA7, 0x11], repeat1);
    let four = encode(&[0xA7, 0x11], repeat4);
    assert_eq!(once.len(), 2 * 2 * 16 * 2 - 1);
    assert_eq!(four.len(), 4 * once.len());
    for (j, chip) in four.iter().enumerate() {
        assert_eq!(*chip, once[j / 4]);
    }
    assert_eq!(encode(&[], repeat4), Vec::<u8>::new());
}

#[test]
fn chip_encoder_with_a_caller_made_repeater() {
    let twice = encode(&[0x3C], |chip: u8| vec![chip, chip]);
    let once = encode(&[0x3C], repeat1);
    assert_eq!(twice.len(), 2 * once.len());
    for (j, chip) in twice.iter().enumerate() {
        assert_eq!(*chip, once[j / 2]);
    }
}

#[test]
fn pulse_templates() {
    assert_eq!(chips_to_waves(0b00), [Level::Low(4), Level::High(8), Level::Low(4)]);
    assert_eq!(chips_to_waves(0b01), [Level::Low(8), Level::High(8), Level::Nop]);
    assert_eq!(chips_to_waves(0b10), [Level::High(8), Level::Low(8), Level::Nop]);
    assert_eq!(chips_to_waves(0b11), [Level::High(4), Level::Low(8), Level::High(4)]);
}

#[test]
fn pulse_templates_fill_sixteen_cycles() {
    for chip in 0u8..4 {
        let mut cycles: u32 = 0;
        for level in chips_to_waves(chip) {
            match level {
                Level::High(d) | Level::Low(d) => cycles += u32::from(d),
                Level::Nop => {}
            }
        }
        assert_eq!(cycles, 16);
    }
}

#[test]
fn run_merge_extends_at_the_same_height() {
    let mut state = Level::High(4);
    assert_eq!(combine_waves(&mut state, Level::High(8)), Some(Level::Nop));
    assert_eq!(state, Level::High(12));
    let mut state = Level::Low(0);
    assert_eq!(combine_waves(&mut state, Level::Low(4)), Some(Level::Nop));
    assert_eq!(state, Level::Low(4));
}

#[test]
fn run_merge_closes_at_the_other_height() {
    let mut state = Level::High(12);
    assert_eq!(combine_waves(&mut state, Level::Low(8)), Some(Level::High(12)));
    assert_eq!(state, Level::Low(8));
    let mut state = Level::Low(0);
    assert_eq!(combine_waves(&mut state, Level::High(4)), Some(Level::Low(0)));
    assert_eq!(state, Level::High(4));
}

#[test]
fn run_merge_passes_nop() {
    let mut state = Level::High(8);
    assert_eq!(combine_waves(&mut state, Level::Nop), Some(Level::Nop));
    assert_eq!(state, Level::High(8));
    let mut state = Level::Nop;
    assert_eq!(combine_waves(&mut state, Level::High(8)), Some(Level::Nop));
    assert_eq!(state, Level::Nop);
    assert_eq!(combine_waves(&mut state, Level::Low(8)), Some(Level::Nop));
    assert_eq!(state, Level::Nop);
}

#[test]
fn minimum_width_normalization() {
    assert_eq!(levels_to_ints(Level::Low(0)), Some(4));
    assert_eq!(levels_to_ints(Level::High(2)), Some(4));
    assert_eq!(levels_to_ints(Level::High(4)), Some(4));
    assert_eq!(levels_to_ints(Level::Low(6)), Some(6));
    assert_eq!(levels_to_ints(Level::High(16)), Some(16));
    assert_eq!(levels_to_ints(Level::Low(255)), Some(255));
    assert_eq!(levels_to_ints(Level::Nop), None);
}

#[test]
fn unary_code_of_a_length() {
    assert_eq!(lengths_to_pio_byte_code_ints(4), vec![0]);
    assert_eq!(lengths_to_pio_byte_code_ints(6), vec![1, 0]);
    assert_eq!(lengths_to_pio_byte_code_ints(8), vec![1, 1, 0]);
    assert_eq!(lengths_to_pio_byte_code_ints(12), vec![1, 1, 1, 1, 0]);
    assert_eq!(lengths_to_pio_byte_code_ints(16), vec![1, 1, 1, 1, 1, 1, 0]);
}

#[test]
fn closed_runs_of_chip_streams() {
    assert_eq!(merge_runs(&[0b00]), vec![4, 8]);
    assert_eq!(merge_runs(&[0b11]), vec![4, 4, 8]);
    assert_eq!(merge_runs(&[0b10, 0b01]), vec![4, 8, 16]);
    assert_eq!(merge_runs(&[0b01, 0b10]), vec![8, 16]);
    assert_eq!(merge_runs(&[]), Vec::<u8>::new());
}

#[test]
fn waveform_bits_of_chip_streams() {
    assert_eq!(generate(&[]), vec![0]);
    assert_eq!(generate(&[0b00]), vec![0, 0, 1, 1, 0]);
    assert_eq!(generate(&[0b11]), vec![0, 0, 0, 1, 1, 0]);
    assert_eq!(generate(&[0b10, 0b01]), vec![0, 0, 1, 1, 0, 1, 1, 1, 1, 1, 1, 0]);
}

#[test]
fn packing_one_word_at_a_time() {
    let bits: Vec<u8> = [1u8, 0].iter().cycle().take(40).copied().collect();
    let mut cursor: usize = 0;
    assert_eq!(pack_bits_into_u32(&bits, &mut cursor), Some(0xAAAA_AAAA));
    assert_eq!(cursor, 32);
    assert_eq!(pack_bits_into_u32(&bits, &mut cursor), Some(0xAA00_0000));
    assert_eq!(cursor, 40);
    assert_eq!(pack_bits_into_u32(&bits, &mut cursor), None);
    assert_eq!(cursor, 40);
    let mut beyond: usize = 50;
    assert_eq!(pack_bits_into_u32(&bits, &mut beyond), None);
    assert_eq!(beyond, 50);
}

#[test]
fn packing_msb_first() {
    assert_eq!(pack(&[1]), vec![0x8000_0000]);
    assert_eq!(pack(&[0, 1, 0, 1]), vec![0x5000_0000]);
    assert_eq!(pack(&[0]), vec![0x0000_0000]);
    let mut bits: Vec<u8> = vec![0u8; 32];
    bits[31] = 1;
    assert_eq!(pack(&bits), vec![0x0000_0001]);
    bits.push(1);
    assert_eq!(pack(&bits), vec![0x0000_0001, 0x8000_0000]);
}

#[test]
fn packing_word_counts() {
    assert_eq!(pack(&[]), Vec::<u32>::new());
    for len in 1usize..100 {
        let bits: Vec<u8> = vec![1u8; len];
        assert_eq!(pack(&bits).len(), (len + 31) / 32);
    }
}

#[test]
fn convert_one_byte_at_full_rate() {
    let expected: [u32; 12] = [
        0x37B7BDB6, 0x6CDB6CD9, 0x9B6DB6DB, 0x336DEDB3, 0x6DB66DBD, 0xB666DB6D,
        0xBDB6DBDB, 0x66DBDEDB, 0x3666CCDB, 0x7B7B6DBD, 0xBDEDB6DB, 0x6DEF6D80,
    ];
    assert_eq!(convert(&[0xA7], repeat1), expected.to_vec());
}

#[test]
fn convert_one_byte_oversampled() {
    let expected: [u32; 48] = [
        0x36DB6DED, 0xB6DB7B6D, 0xB6F6DB6D, 0xB6DB6D9B, 0x6DB6CDB6, 0xDB6DB6DB,
        0x6DB6DB36, 0xDB6D9B6D, 0xB66DB6DB, 0x6DB6DB6D, 0xB6DB6DB6, 0xDB6DB6DB,
        0x36DB6CDB, 0x6DB6DB6D, 0xB7B6DB6D, 0xB6DB6CDB, 0x6DB6DB6D, 0xB6DB6DB6,
        0x6DB6DB6D, 0xB6DBDB6D, 0xB6DB6DB6, 0x6DB6D9B6, 0xDB6DB6DB, 0x6DB6DB6D,
        0xB6DB6F6D, 0xB6DB6DB6, 0xDB6DB6DB, 0xDB6DB6DB, 0x6DB66DB6, 0xDB6DB6DB,
        0xDB6DB7B6, 0xDB6DB6DB, 0x6CDB6DB6, 0x6DB6D9B6, 0xDB6CDB6D, 0xB36DB6DB,
        0x6DB6DEDB, 0x6DB7B6DB, 0x6DB6DB6D, 0xB6DB6F6D, 0xB6DBDB6D, 0xB7B6DB6D,
        0xB6DB6DB6, 0xDB6DB6DB, 0x6DB6DB6D, 0xEDB6DBDB, 0x6DB6DB6D, 0xB6000000,
    ];
    assert_eq!(convert(&[0xA7], repeat4), expected.to_vec());
}

#[test]
fn convert_nothing() {
    assert_eq!(convert(&[], repeat4), vec![0x0000_0000]);
}

#[test]
fn convert_frame_oversampled() {
    let words = convert(&FRAME, repeat4);
    assert_eq!(words.len(), 1102);
    assert_eq!(&words[..4], &[0x1B6DB66D, 0xB6DB6DB6, 0xDBDB6DB6, 0xF6DB6DED]);
    assert_eq!(words[1102 - 1], 0x7B6DB600);
    assert_eq!(fold(&words), 0xE35281AE63D706C8);
}

#[test]
fn convert_frame_at_full_rate() {
    let words = convert(&FRAME, repeat1);
    assert_eq!(words.len(), 275);
    assert_eq!(&words[..4], &[0x19B6F6F7, 0xB7BDB66C, 0xDB6CD99B, 0x6DB6DB33]);
    assert_eq!(words[275 - 1], 0xB7800000);
    assert_eq!(fold(&words), 0x4755B6725C9832D3);
}

#[test]
fn convert_is_reproducible() {
    let first = convert(&FRAME, repeat4);
    let second = convert(&FRAME, repeat4);
    assert_eq!(first, second);
}

#[test]
fn convert_is_the_three_stages() {
    let chips = encode(&FRAME, repeat4);
    let bits = generate(&chips);
    assert_eq!(pack(&bits), convert(&FRAME, repeat4));
}
