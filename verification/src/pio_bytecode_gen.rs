//! The encoding pipeline: bytes to chips, chips to pulse runs, runs to the
//! unary bit code, bits to 32-bit words.
use vstd::prelude::*;
use crate::chips::{
    encoded_chips, legal_chip, legal_chips, legal_symbol, legal_symbols, lemma_offset_chips_legal,
    lemma_oversampled_by_repeater, lemma_spread_legal, middle_chip, nibbles, offset_chips,
    oversampled_by, oversamples, repeats_each, spread, spreading_sequence, CHIP_ARRAY,
};
pub use crate::waveform::Level;
use crate::waveform::{
    chip_levels, lemma_chip_levels_push, lemma_duration_floor, lemma_scan_segment,
    lemma_waveform_bits_are_bits, normalized, open_run, run_after, run_closed, run_fits,
    run_lengths, settled, unary_code, unary_stream, wave_template, waveform_bits,
    MIN_PULSE_CYCLES,
};
use crate::words::{all_bits, packed_words, word_bits, word_count, word_of, WORD_BITS};

verus! {

/// The two symbols of a byte in the order they go on air: the low nibble,
/// then the high nibble.
pub fn swap_and_split_fn(byte: &u8) -> (symbols: [u8; 2])
    ensures
        symbols[0] == *byte % 16,
        symbols[1] == *byte / 16,
        legal_symbol(symbols[0]),
        legal_symbol(symbols[1]),
{
    let byte: u8 = *byte;
    assert(byte & 0b0000_1111u8 == byte % 16 && byte >> 4u8 == byte / 16) by (bit_vector);
    let ret: [u8; 2] = [byte & 0b0000_1111u8, byte >> 4u8];
    ret
}

/// The spreading sequence of a symbol.
pub fn hex_to_chips(c: u8) -> (chips: [u8; 16])
    requires
        legal_symbol(c),
    ensures
        chips@ == spreading_sequence(c),
{
    let idx: usize = c as usize;
    CHIP_ARRAY[idx]
}

/// One step of the offset insertion: returns the middle chip between `prev`
/// and `current`, then `current`, and remembers `current` as the previous
/// chip.
pub fn add_middle(prev: &mut u8, current: u8) -> (pair: Option<[u8; 2]>)
    ensures
        *final(prev) == current,
        pair matches Some(chips) && chips[0] == middle_chip(*old(prev), current) && chips[1]
            == current,
{
    let middle: u8 = (*prev & 0b01u8) | (current & 0b10u8);
    *prev = current;
    Some([middle, current])
}

/// Nibble split: the symbols of a byte stream in the order they go on air.
pub fn swap(s: &[u8]) -> (symbols: Vec<u8>)
    ensures
        symbols@ == nibbles(s@),
        legal_symbols(symbols@),
{
    let mut symbols: Vec<u8> = Vec::new();
    let mut done: usize = 0;
    while done < s.len()
        invariant
            done <= s.len(),
            symbols@.len() == 2 * done,
            forall|i: int| 0 <= i < symbols@.len() ==> symbols@[i] == #[trigger] nibbles(s@)[i],
            legal_symbols(symbols@),
        decreases s.len() - done,
    {
        let pair = swap_and_split_fn(&s[done]);
        symbols.push(pair[0]);
        symbols.push(pair[1]);
        done = done + 1;
    }
    assert(symbols@ =~= nibbles(s@));
    symbols
}

/// Spread: the chips of a symbol stream.
pub fn get_chip_sequences(s: &[u8]) -> (chips: Vec<u8>)
    requires
        legal_symbols(s@),
    ensures
        chips@ == spread(s@),
{
    let mut chips: Vec<u8> = Vec::new();
    let mut done: usize = 0;
    while done < s.len()
        invariant
            done <= s.len(),
            legal_symbols(s@),
            chips@.len() == 16 * done,
            forall|i: int| 0 <= i < chips@.len() ==> chips@[i] == #[trigger] spread(s@)[i],
        decreases s.len() - done,
    {
        let sequence = hex_to_chips(s[done]);
        let mut chip: usize = 0;
        while chip < 16
            invariant
                chip <= 16,
                done < s.len(),
                sequence@ == spreading_sequence(s@[done as int]),
                chips@.len() == 16 * done + chip,
                forall|i: int| 0 <= i < chips@.len() ==> chips@[i] == #[trigger] spread(s@)[i],
            decreases 16 - chip,
        {
            chips.push(sequence[chip]);
            chip = chip + 1;
        }
        done = done + 1;
    }
    assert(chips@ =~= spread(s@));
    chips
}

/// Offset insertion: puts the middle chip between each two chips of the
/// stream. The middle chip that the first step makes from the seed is left
/// out, so the stream begins with the first chip.
pub fn add_middle_bits_for_o_qpsk(cs: &[u8]) -> (stream: Vec<u8>)
    ensures
        stream@ == offset_chips(cs@),
{
    let mut stream: Vec<u8> = Vec::new();
    let mut prev: u8 = 0;
    let mut done: usize = 0;
    while done < cs.len()
        invariant
            done <= cs.len(),
            done > 0 ==> prev == cs@[done - 1],
            stream@.len() == if done == 0 {
                0
            } else {
                2 * done - 1
            },
            forall|j: int|
                0 <= j < stream@.len() ==> stream@[j] == #[trigger] offset_chips(cs@)[j],
        decreases cs.len() - done,
    {
        if let Some(pair) = add_middle(&mut prev, cs[done]) {
            if done > 0 {
                stream.push(pair[0]);
            }
            stream.push(pair[1]);
        }
        done = done + 1;
    }
    assert(stream@ =~= offset_chips(cs@));
    stream
}

/// The pulse template of one chip.
pub fn chips_to_waves(chip: u8) -> (waves: [Level; 3])
    requires
        legal_chip(chip),
    ensures
        waves@ == wave_template(chip),
{
    if chip == 0b00 {
        [Level::Low(4), Level::High(8), Level::Low(4)]
    } else if chip == 0b01 {
        [Level::Low(8), Level::High(8), Level::Nop]
    } else if chip == 0b10 {
        [Level::High(8), Level::Low(8), Level::Nop]
    } else {
        [Level::High(4), Level::Low(8), Level::High(4)]
    }
}

/// One step of the run merge. A segment at the height of the open run is
/// added to it and nothing is closed; a segment at the other height closes
/// the open run, which is returned, and opens the next.
pub fn combine_waves(state: &mut Level, next: Level) -> (closed: Option<Level>)
    requires
        run_fits(*old(state), next),
    ensures
        *final(state) == run_after(*old(state), next),
        closed == Some(run_closed(*old(state), next)),
{
    match next {
        Level::High(next_len) => {
            match *state {
                Level::High(state_len) => {
                    *state = Level::High(next_len + state_len);
                    Some(Level::Nop)
                },
                Level::Low(_) => {
                    let temp = Some(*state);
                    *state = next;
                    temp
                },
                Level::Nop => Some(Level::Nop),
            }
        },
        Level::Low(next_len) => {
            match *state {
                Level::Low(state_len) => {
                    *state = Level::Low(next_len + state_len);
                    Some(Level::Nop)
                },
                Level::High(_) => {
                    let temp = Some(*state);
                    *state = next;
                    temp
                },
                Level::Nop => Some(Level::Nop),
            }
        },
        Level::Nop => Some(Level::Nop),
    }
}

/// The programmable length of a closed run, or `None` where none was closed.
pub fn levels_to_ints(l: Level) -> (length: Option<u8>)
    ensures
        length == normalized(l),
{
    match l {
        Level::Low(v) | Level::High(v) => {
            if v > MIN_PULSE_CYCLES {
                Some(v)
            } else {
                Some(MIN_PULSE_CYCLES)
            }
        },
        Level::Nop => None,
    }
}

/// `repeats` copies of `n`.
pub fn repeater(repeats: u8, n: u8) -> (copies: Vec<u8>)
    ensures
        copies@ == Seq::new(repeats as nat, |i: int| n),
{
    let mut copies: Vec<u8> = Vec::new();
    let mut made: u8 = 0;
    while made < repeats
        invariant
            made <= repeats,
            copies@ == Seq::new(made as nat, |i: int| n),
        decreases repeats - made,
    {
        copies.push(n);
        made = made + 1;
    }
    copies
}

/// Four copies of a chip: the production oversampling.
pub fn repeat4(n: u8) -> (copies: Vec<u8>)
    ensures
        copies@ == Seq::new(4, |i: int| n),
{
    repeater(4, n)
}

/// One copy of a chip: the full chip rate.
pub fn repeat1(n: u8) -> (copies: Vec<u8>)
    ensures
        copies@ == Seq::new(1, |i: int| n),
{
    repeater(1, n)
}

/// The loop/exit code of a run of `len` cycles.
pub fn lengths_to_pio_byte_code_ints(len: u8) -> (bits: Vec<u8>)
    requires
        len >= MIN_PULSE_CYCLES,
    ensures
        bits@ == unary_code(len),
{
    let repeats = (len - MIN_PULSE_CYCLES) / 2;
    let mut bits = repeater(repeats, 1u8);
    bits.push(0u8);
    bits
}

/// Template mapping, run merge and minimum-width normalization: the lengths,
/// in clock cycles, of the pulses that a chip stream closes. Each is even and
/// at least the minimum pulse width. The run that is open when the stream
/// ends is not closed, so it is not among them.
pub fn merge_runs(chips: &[u8]) -> (lengths: Vec<u8>)
    requires
        legal_chips(chips@),
    ensures
        lengths@ == run_lengths(chip_levels(chips@)),
        forall|i: int|
            0 <= i < lengths@.len() ==> #[trigger] lengths@[i] >= MIN_PULSE_CYCLES && lengths@[i]
                % 2 == 0,
{
    let mut lengths: Vec<u8> = Vec::new();
    let mut state = Level::Low(0);
    let mut done: usize = 0;
    while done < chips.len()
        invariant
            done <= chips.len(),
            legal_chips(chips@),
            state == open_run(chip_levels(chips@.take(done as int))),
            settled(state),
            lengths@ == run_lengths(chip_levels(chips@.take(done as int))),
        decreases chips.len() - done,
    {
        let chip = chips[done];
        let waves = chips_to_waves(chip);
        let ghost before = chip_levels(chips@.take(done as int));
        let ghost mut scanned = before;
        let mut segment: usize = 0;
        while segment < 3
            invariant
                segment <= 3,
                legal_chip(chip),
                waves@ == wave_template(chip),
                scanned == before + wave_template(chip).take(segment as int),
                state == open_run(scanned),
                lengths@ == run_lengths(scanned),
                segment != 1 ==> settled(state),
                segment == 1 ==> state.same_height(wave_template(chip)[0]) && state.duration()
                    <= 16,
                segment == 2 ==> state == wave_template(chip)[1],
            decreases 3 - segment,
        {
            let next = waves[segment];
            proof {
                lemma_scan_segment(scanned, next);
                assert(before + wave_template(chip).take(segment + 1) =~= scanned.push(next));
                scanned = scanned.push(next);
            }
            if let Some(closed) = combine_waves(&mut state, next) {
                if let Some(length) = levels_to_ints(closed) {
                    lengths.push(length);
                }
            }
            segment = segment + 1;
        }
        proof {
            assert(wave_template(chip).take(3) =~= wave_template(chip));
            assert(chips@.take(done + 1) =~= chips@.take(done as int).push(chip));
            lemma_chip_levels_push(chips@.take(done as int), chip);
        }
        done = done + 1;
    }
    proof {
        assert(chips@.take(done as int) =~= chips@);
        lemma_duration_floor(chips@);
    }
    lengths
}

/// The waveform generator: the unary-coded bit stream of a chip stream, one
/// bit per element, behind the leading `0` that the peripheral's start-up
/// wait consumes.
pub fn generate(chips: &[u8]) -> (bits: Vec<u8>)
    requires
        legal_chips(chips@),
    ensures
        bits@ == waveform_bits(chips@),
        all_bits(bits@),
{
    proof {
        lemma_waveform_bits_are_bits(chips@);
    }
    let lengths = merge_runs(chips);
    let mut bits: Vec<u8> = Vec::new();
    bits.push(0u8);
    let mut done: usize = 0;
    while done < lengths.len()
        invariant
            done <= lengths.len(),
            forall|i: int|
                0 <= i < lengths@.len() ==> #[trigger] lengths@[i] >= MIN_PULSE_CYCLES,
            bits@ == seq![0u8] + unary_stream(lengths@.take(done as int)),
        decreases lengths.len() - done,
    {
        let mut code = lengths_to_pio_byte_code_ints(lengths[done]);
        proof {
            assert(lengths@.take(done + 1).drop_last() =~= lengths@.take(done as int));
        }
        bits.append(&mut code);
        done = done + 1;
    }
    proof {
        assert(lengths@.take(done as int) =~= lengths@);
    }
    bits
}

/// Takes up to thirty-two bits from `bits`, starting at `cursor`, and packs
/// them into one word, most significant bit first. Returns `None`, and leaves
/// the cursor, when no bit is left; else the cursor moves behind the bits
/// taken. A word that the input ends in is padded with zeros at its low end.
pub fn pack_bits_into_u32(bits: &[u8], cursor: &mut usize) -> (word: Option<u32>)
    ensures
        match word {
            Some(value) => {
                &&& *old(cursor) < bits@.len()
                &&& *final(cursor) == if *old(cursor) + WORD_BITS <= bits@.len() {
                    *old(cursor) + WORD_BITS
                } else {
                    bits@.len() as int
                }
                &&& value == word_of(bits@.subrange(*old(cursor) as int, *final(cursor) as int))
            },
            None => *old(cursor) >= bits@.len() && *final(cursor) == *old(cursor),
        },
{
    let start: usize = *cursor;
    if start >= bits.len() {
        return None;
    }
    let mut position: usize = start;
    let mut value: u32 = 0;
    let mut bit_idx: u32 = 0;
    assert(bits@.subrange(start as int, position as int) =~= Seq::<u8>::empty());
    while position < bits.len() && bit_idx < 32
        invariant
            start <= position <= bits@.len(),
            position == start + bit_idx,
            bit_idx <= 32,
            value == word_of(bits@.subrange(start as int, position as int)),
        decreases bits.len() - position,
    {
        let set_bit = bits[position];
        assert(bits@.subrange(start as int, position + 1).drop_last() =~= bits@.subrange(
            start as int,
            position as int,
        ));
        value = value | ((set_bit as u32) << (31 - bit_idx));
        bit_idx = bit_idx + 1;
        position = position + 1;
    }
    *cursor = position;
    Some(value)
}

/// The bit packer: the words of a bit stream, thirty-two bits to a word, most
/// significant bit first, the last word padded with zeros at its low end.
/// `L` bits give `ceil(L / 32)` words, and no bits give none.
pub fn pack(bits: &[u8]) -> (words: Vec<u32>)
    ensures
        words@ == packed_words(bits@),
        words@.len() == word_count(bits@.len()),
        bits@.len() == 0 ==> words@.len() == 0,
{
    let mut words: Vec<u32> = Vec::new();
    let mut cursor: usize = 0;
    loop
        invariant
            cursor <= bits@.len(),
            cursor == 32 * words@.len() || cursor == bits@.len(),
            words@.len() == word_count(cursor as nat),
            forall|index: int|
                0 <= index < words@.len() ==> #[trigger] words@[index] == word_of(
                    word_bits(bits@, index),
                ),
        ensures
            cursor == bits@.len(),
            words@.len() == word_count(cursor as nat),
            forall|index: int|
                0 <= index < words@.len() ==> #[trigger] words@[index] == word_of(
                    word_bits(bits@, index),
                ),
        decreases bits@.len() - cursor,
    {
        let ghost before = cursor;
        match pack_bits_into_u32(bits, &mut cursor) {
            Some(word) => {
                proof {
                    assert(before == 32 * words@.len());
                    assert(word_bits(bits@, words@.len() as int) == bits@.subrange(
                        before as int,
                        cursor as int,
                    ));
                }
                words.push(word);
            },
            None => {
                break ;
            },
        }
    }
    assert(words@ =~= packed_words(bits@));
    words
}

/// The chip encoder: nibble split, spreading, offset insertion, then
/// oversampling, for which `repeat_fn` says what stands for each chip
/// ([`repeat4`] in production, [`repeat1`] at the full chip rate).
pub fn encode<F: Fn(u8) -> Vec<u8>>(bytes: &[u8], repeat_fn: F) -> (chips: Vec<u8>)
    requires
        oversamples(repeat_fn),
    ensures
        oversampled_by(repeat_fn, offset_chips(spread(nibbles(bytes@))), chips@),
        forall|repeats: nat| #[trigger]
            repeats_each(repeat_fn, repeats) ==> chips@ == encoded_chips(bytes@, repeats),
        legal_chips(chips@),
{
    let symbols = swap(bytes);
    let spread_chips = get_chip_sequences(symbols.as_slice());
    let offset = add_middle_bits_for_o_qpsk(spread_chips.as_slice());
    proof {
        lemma_spread_legal(symbols@);
        lemma_offset_chips_legal(spread_chips@);
    }
    let mut chips: Vec<u8> = Vec::new();
    let mut done: usize = 0;
    while done < offset.len()
        invariant
            done <= offset.len(),
            oversamples(repeat_fn),
            legal_chips(offset@),
            legal_chips(chips@),
            oversampled_by(repeat_fn, offset@.take(done as int), chips@),
        decreases offset.len() - done,
    {
        let chip = offset[done];
        let mut copies = repeat_fn(chip);
        proof {
            let ghost after = chips@ + copies@;
            assert(offset@.take(done + 1).last() == chip);
            assert(offset@.take(done + 1).drop_last() =~= offset@.take(done as int));
            assert(after.subrange(after.len() - copies@.len(), after.len() as int) =~= copies@);
            assert(after.subrange(0, after.len() - copies@.len()) =~= chips@);
            assert(oversampled_by(repeat_fn, offset@.take(done + 1), after));
        }
        chips.append(&mut copies);
        done = done + 1;
    }
    proof {
        assert(offset@.take(done as int) =~= offset@);
        assert forall|repeats: nat| #[trigger] repeats_each(repeat_fn, repeats) implies chips@
            == encoded_chips(bytes@, repeats) by {
            lemma_oversampled_by_repeater(repeat_fn, repeats, offset@, chips@);
        }
    }
    chips
}

/// The words for a byte stream and an oversampling factor: what the whole
/// pipeline puts out.
pub open spec fn pio_words(bytes: Seq<u8>, repeats: nat) -> Seq<u32> {
    packed_words(waveform_bits(encoded_chips(bytes, repeats)))
}

/// Turns bytes into the words that make the peripheral radiate them:
/// chip encoder, waveform generator, bit packer.
pub fn convert<F: Fn(u8) -> Vec<u8>>(s: &[u8], repeat_fn: F) -> (words: Vec<u32>)
    requires
        oversamples(repeat_fn),
    ensures
        exists|chips: Seq<u8>|
            {
                &&& #[trigger] oversampled_by(repeat_fn, offset_chips(spread(nibbles(s@))), chips)
                &&& words@ == packed_words(waveform_bits(chips))
            },
        forall|repeats: nat| #[trigger]
            repeats_each(repeat_fn, repeats) ==> words@ == pio_words(s@, repeats),
{
    let chips = encode(s, repeat_fn);
    let bits = generate(chips.as_slice());
    pack(bits.as_slice())
}

} // verus!
