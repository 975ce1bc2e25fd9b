//! Model of the chip encoder: nibble order, direct-sequence spreading, the
//! half-chip offset between the two rails, oversampling.
use vstd::prelude::*;

verus! {

/// Chips in the spreading sequence of one symbol.
pub const CHIPS_PER_SYMBOL: usize = 16;

/// The spreading table of the 2450 MHz O-QPSK physical layer: for each of
/// the sixteen data symbols its pseudo-noise sequence, sixteen chips of an
/// in-phase bit (high) and a quadrature bit (low).
pub const CHIP_ARRAY: [[u8; 16]; 16] = [
    [0b11, 0b01, 0b10, 0b01, 0b11, 0b00, 0b00, 0b11, 0b01, 0b01, 0b00, 0b10, 0b00, 0b10, 0b11, 0b10],
    [0b11, 0b10, 0b11, 0b01, 0b10, 0b01, 0b11, 0b00, 0b00, 0b11, 0b01, 0b01, 0b00, 0b10, 0b00, 0b10],
    [0b00, 0b10, 0b11, 0b10, 0b11, 0b01, 0b10, 0b01, 0b11, 0b00, 0b00, 0b11, 0b01, 0b01, 0b00, 0b10],
    [0b00, 0b10, 0b00, 0b10, 0b11, 0b10, 0b11, 0b01, 0b10, 0b01, 0b11, 0b00, 0b00, 0b11, 0b01, 0b01],
    [0b01, 0b01, 0b00, 0b10, 0b00, 0b10, 0b11, 0b10, 0b11, 0b01, 0b10, 0b01, 0b11, 0b00, 0b00, 0b11],
    [0b00, 0b11, 0b01, 0b01, 0b00, 0b10, 0b00, 0b10, 0b11, 0b10, 0b11, 0b01, 0b10, 0b01, 0b11, 0b00],
    [0b11, 0b00, 0b00, 0b11, 0b01, 0b01, 0b00, 0b10, 0b00, 0b10, 0b11, 0b10, 0b11, 0b01, 0b10, 0b01],
    [0b10, 0b01, 0b11, 0b00, 0b00, 0b11, 0b01, 0b01, 0b00, 0b10, 0b00, 0b10, 0b11, 0b10, 0b11, 0b01],
    [0b10, 0b00, 0b11, 0b00, 0b10, 0b01, 0b01, 0b10, 0b00, 0b00, 0b01, 0b11, 0b01, 0b11, 0b10, 0b11],
    [0b10, 0b11, 0b10, 0b00, 0b11, 0b00, 0b10, 0b01, 0b01, 0b10, 0b00, 0b00, 0b01, 0b11, 0b01, 0b11],
    [0b01, 0b11, 0b10, 0b11, 0b10, 0b00, 0b11, 0b00, 0b10, 0b01, 0b01, 0b10, 0b00, 0b00, 0b01, 0b11],
    [0b01, 0b11, 0b01, 0b11, 0b10, 0b11, 0b10, 0b00, 0b11, 0b00, 0b10, 0b01, 0b01, 0b10, 0b00, 0b00],
    [0b00, 0b00, 0b01, 0b11, 0b01, 0b11, 0b10, 0b11, 0b10, 0b00, 0b11, 0b00, 0b10, 0b01, 0b01, 0b10],
    [0b01, 0b10, 0b00, 0b00, 0b01, 0b11, 0b01, 0b11, 0b10, 0b11, 0b10, 0b00, 0b11, 0b00, 0b10, 0b01],
    [0b10, 0b01, 0b01, 0b10, 0b00, 0b00, 0b01, 0b11, 0b01, 0b11, 0b10, 0b11, 0b10, 0b00, 0b11, 0b00],
    [0b11, 0b00, 0b10, 0b01, 0b01, 0b10, 0b00, 0b00, 0b01, 0b11, 0b01, 0b11, 0b10, 0b11, 0b10, 0b00],
];

/// A chip is one in-phase/quadrature pair, so it has two bits.
pub open spec fn legal_chip(chip: u8) -> bool {
    chip <= 3
}

/// Every element is a two-bit chip.
pub open spec fn legal_chips(chips: Seq<u8>) -> bool {
    forall|i: int| 0 <= i < chips.len() ==> legal_chip(#[trigger] chips[i])
}

/// A data symbol is four bits wide.
pub open spec fn legal_symbol(symbol: u8) -> bool {
    symbol < 16
}

/// Every element is a four-bit symbol.
pub open spec fn legal_symbols(symbols: Seq<u8>) -> bool {
    forall|i: int| 0 <= i < symbols.len() ==> legal_symbol(#[trigger] symbols[i])
}

/// The spreading sequence of a symbol.
pub open spec fn spreading_sequence(symbol: u8) -> Seq<u8> {
    CHIP_ARRAY[symbol as int]@
}

/// The symbols of a byte stream in the order they go on air: of each byte
/// the low nibble, then the high nibble.
pub open spec fn nibbles(bytes: Seq<u8>) -> Seq<u8> {
    Seq::new(
        2 * bytes.len(),
        |i: int|
            if i % 2 == 0 {
                bytes[i / 2] % 16
            } else {
                bytes[i / 2] / 16
            },
    )
}

/// The chips of a symbol stream: the spreading sequences of its symbols, one
/// after the other.
pub open spec fn spread(symbols: Seq<u8>) -> Seq<u8> {
    Seq::new(16 * symbols.len(), |i: int| spreading_sequence(symbols[i / 16])[i % 16])
}

/// The chip between two chips: the quadrature bit still that of `prev`, the
/// in-phase bit already that of `current`.
pub open spec fn middle_chip(prev: u8, current: u8) -> u8 {
    (prev & 0b01) | (current & 0b10)
}

/// The offset chip stream: the chips of the input with the middle chip put
/// between each two of them. Nothing stands before the first chip.
pub open spec fn offset_chips(chips: Seq<u8>) -> Seq<u8> {
    if chips.len() == 0 {
        Seq::empty()
    } else {
        Seq::new(
            (2 * chips.len() - 1) as nat,
            |j: int|
                if j % 2 == 0 {
                    chips[j / 2]
                } else {
                    middle_chip(chips[j / 2], chips[j / 2 + 1])
                },
        )
    }
}

/// A chip stream with each chip repeated `repeats` times.
pub open spec fn oversampled(chips: Seq<u8>, repeats: nat) -> Seq<u8>
    decreases chips.len(),
{
    if chips.len() == 0 {
        Seq::empty()
    } else {
        oversampled(chips.drop_last(), repeats) + Seq::new(repeats, |i: int| chips.last())
    }
}

/// `stream` is `chips` with each chip replaced by something that `repeat_fn`
/// may return for it.
pub open spec fn oversampled_by<F: Fn(u8) -> Vec<u8>>(
    repeat_fn: F,
    chips: Seq<u8>,
    stream: Seq<u8>,
) -> bool
    decreases chips.len(),
{
    if chips.len() == 0 {
        stream.len() == 0
    } else {
        exists|copies: Vec<u8>|
            {
                &&& #[trigger] call_ensures(repeat_fn, (chips.last(),), copies)
                &&& copies@.len() <= stream.len()
                &&& stream.subrange(stream.len() - copies@.len(), stream.len() as int) == copies@
                &&& oversampled_by(
                    repeat_fn,
                    chips.drop_last(),
                    stream.subrange(0, stream.len() - copies@.len()),
                )
            }
    }
}

/// `repeat_fn` can oversample: it accepts every chip and returns chips.
pub open spec fn oversamples<F: Fn(u8) -> Vec<u8>>(repeat_fn: F) -> bool {
    &&& forall|chip: u8| legal_chip(chip) ==> call_requires(repeat_fn, (chip,))
    &&& forall|chip: u8, copies: Vec<u8>|
        legal_chip(chip) && call_ensures(repeat_fn, (chip,), copies) ==> legal_chips(copies@)
}

/// `repeat_fn` returns `repeats` copies of the chip it is given.
pub open spec fn repeats_each<F: Fn(u8) -> Vec<u8>>(repeat_fn: F, repeats: nat) -> bool {
    forall|chip: u8, copies: Vec<u8>|
        call_ensures(repeat_fn, (chip,), copies) ==> copies@ == Seq::new(repeats, |i: int| chip)
}

/// The chip encoder's output for a byte stream and an oversampling factor.
pub open spec fn encoded_chips(bytes: Seq<u8>, repeats: nat) -> Seq<u8> {
    oversampled(offset_chips(spread(nibbles(bytes))), repeats)
}

/// Two chips that differ in at most one of their two bits: between them
/// at most one rail changes.
pub open spec fn one_rail_apart(a: u8, b: u8) -> bool {
    a ^ b == 0 || a ^ b == 0b01 || a ^ b == 0b10
}

/// No step of the stream changes both rails.
pub open spec fn offset_legal(stream: Seq<u8>) -> bool {
    forall|j: int| 0 <= j < stream.len() - 1 ==> one_rail_apart(#[trigger] stream[j], stream[j + 1])
}

/// A chip with its quadrature bit inverted.
pub open spec fn conjugate(chip: u8) -> u8 {
    if chip % 2 == 0 {
        (chip + 1) as u8
    } else {
        (chip - 1) as u8
    }
}

/// Spreading table integrity: every symbol has sixteen chips, each a two-bit
/// value.
pub proof fn lemma_spreading_table_integrity(symbol: u8)
    requires
        legal_symbol(symbol),
    ensures
        spreading_sequence(symbol).len() == CHIPS_PER_SYMBOL,
        legal_chips(spreading_sequence(symbol)),
{
}

/// The table is the code of the standard: the sequences of symbols 1 to 7
/// are that of symbol 0 turned right by two chips for each step, and the
/// sequences of symbols 8 to 15 are those of symbols 0 to 7 with every
/// quadrature bit inverted.
pub proof fn lemma_spreading_table_structure(symbol: u8, i: int)
    requires
        legal_symbol(symbol),
        0 <= i < CHIPS_PER_SYMBOL,
    ensures
        symbol < 8 ==> spreading_sequence(symbol)[i] == spreading_sequence(0)[(i + 16 - 2
            * symbol) % 16],
        symbol >= 8 ==> spreading_sequence(symbol)[i] == conjugate(
            spreading_sequence((symbol - 8) as u8)[i],
        ),
{
}

/// The chips of legal symbols are legal.
pub proof fn lemma_spread_legal(symbols: Seq<u8>)
    requires
        legal_symbols(symbols),
    ensures
        legal_chips(spread(symbols)),
{
    assert forall|i: int| 0 <= i < spread(symbols).len() implies legal_chip(
        #[trigger] spread(symbols)[i],
    ) by {
        lemma_spreading_table_integrity(symbols[i / 16]);
    }
}

/// The chip between two chips is a chip.
pub proof fn lemma_middle_chip_legal(prev: u8, current: u8)
    ensures
        legal_chip(middle_chip(prev, current)),
{
    assert((prev & 0b01u8) | (current & 0b10u8) <= 3) by (bit_vector);
}

/// The offset stream of legal chips is legal.
pub proof fn lemma_offset_chips_legal(chips: Seq<u8>)
    requires
        legal_chips(chips),
    ensures
        legal_chips(offset_chips(chips)),
{
    assert forall|j: int| 0 <= j < offset_chips(chips).len() implies legal_chip(
        #[trigger] offset_chips(chips)[j],
    ) by {
        if j % 2 != 0 {
            lemma_middle_chip_legal(chips[j / 2], chips[j / 2 + 1]);
        }
    }
}

/// With a function that returns `repeats` copies of its chip, the one stream
/// that `oversampled_by` admits is `oversampled`.
pub proof fn lemma_oversampled_by_repeater<F: Fn(u8) -> Vec<u8>>(
    repeat_fn: F,
    repeats: nat,
    chips: Seq<u8>,
    stream: Seq<u8>,
)
    requires
        repeats_each(repeat_fn, repeats),
        oversampled_by(repeat_fn, chips, stream),
    ensures
        stream == oversampled(chips, repeats),
    decreases chips.len(),
{
    if chips.len() == 0 {
        assert(stream =~= Seq::<u8>::empty());
    } else {
        let copies = choose|copies: Vec<u8>|
            {
                &&& #[trigger] call_ensures(repeat_fn, (chips.last(),), copies)
                &&& copies@.len() <= stream.len()
                &&& stream.subrange(stream.len() - copies@.len(), stream.len() as int) == copies@
                &&& oversampled_by(
                    repeat_fn,
                    chips.drop_last(),
                    stream.subrange(0, stream.len() - copies@.len()),
                )
            };
        let head = stream.subrange(0, stream.len() - copies@.len());
        lemma_oversampled_by_repeater(repeat_fn, repeats, chips.drop_last(), head);
        assert(stream =~= head + copies@);
    }
}

/// Oversampling by `repeats` makes a stream `repeats` times as long, and
/// where it leaves anything, the stream still ends with its last chip.
pub proof fn lemma_oversampled_shape(chips: Seq<u8>, repeats: nat)
    ensures
        oversampled(chips, repeats).len() == repeats * chips.len(),
        repeats > 0 && chips.len() > 0 ==> oversampled(chips, repeats).last() == chips.last(),
        legal_chips(chips) ==> legal_chips(oversampled(chips, repeats)),
    decreases chips.len(),
{
    if chips.len() > 0 {
        lemma_oversampled_shape(chips.drop_last(), repeats);
        assert(repeats * chips.len() == repeats * (chips.len() - 1) + repeats)
            by (nonlinear_arith);
    } else {
        assert(repeats * chips.len() == 0) by (nonlinear_arith)
            requires
                chips.len() == 0,
        ;
    }
}

/// Between a chip and the middle chip only the in-phase bit can move, between
/// the middle chip and the next chip only the quadrature bit.
pub proof fn lemma_middle_chip_steps(prev: u8, current: u8)
    by (bit_vector)
    requires
        prev <= 3,
        current <= 3,
    ensures
        prev ^ middle_chip(prev, current) == (prev ^ current) & 0b10,
        middle_chip(prev, current) ^ current == (prev ^ current) & 0b01,
        one_rail_apart(prev, middle_chip(prev, current)),
        one_rail_apart(middle_chip(prev, current), current),
{
}

/// The offset chip stream changes one rail at a time.
pub proof fn lemma_offset_chips_legality(chips: Seq<u8>)
    requires
        legal_chips(chips),
    ensures
        offset_legal(offset_chips(chips)),
{
    let stream = offset_chips(chips);
    assert forall|j: int| 0 <= j < stream.len() - 1 implies one_rail_apart(
        #[trigger] stream[j],
        stream[j + 1],
    ) by {
        assert(legal_chip(chips[j / 2]) && legal_chip(chips[j / 2 + 1]));
        lemma_middle_chip_steps(chips[j / 2], chips[j / 2 + 1]);
    }
}

/// Oversampling keeps a stream offset-legal: a repeated chip changes no rail.
pub proof fn lemma_oversampled_legality(stream: Seq<u8>, repeats: nat)
    requires
        offset_legal(stream),
    ensures
        offset_legal(oversampled(stream, repeats)),
    decreases stream.len(),
{
    if stream.len() > 0 {
        let before = stream.drop_last();
        let head = oversampled(before, repeats);
        let copies = Seq::new(repeats, |i: int| stream.last());
        let whole = oversampled(stream, repeats);
        assert forall|j: int| 0 <= j < before.len() - 1 implies one_rail_apart(
            #[trigger] before[j],
            before[j + 1],
        ) by {
            assert(one_rail_apart(stream[j], stream[j + 1]));
        }
        lemma_oversampled_legality(before, repeats);
        lemma_oversampled_shape(before, repeats);
        assert forall|j: int| 0 <= j < whole.len() - 1 implies one_rail_apart(
            #[trigger] whole[j],
            whole[j + 1],
        ) by {
            if j + 1 < head.len() {
                assert(one_rail_apart(head[j], head[j + 1]));
            } else if j >= head.len() {
                let chip = stream.last();
                assert(chip ^ chip == 0) by (bit_vector);
            } else {
                assert(before.len() > 0) by {
                    if before.len() == 0 {
                        assert(repeats * before.len() == 0) by (nonlinear_arith)
                            requires
                                before.len() == 0,
                        ;
                    }
                }
                assert(whole[j] == head.last());
                assert(one_rail_apart(stream[before.len() - 1], stream[before.len() - 1 + 1]));
            }
        }
    }
}

/// Offset legality: in the chip encoder's output no step changes both rails,
/// whatever the bytes and the oversampling factor.
pub proof fn lemma_offset_legality(bytes: Seq<u8>, repeats: nat)
    ensures
        offset_legal(encoded_chips(bytes, repeats)),
        legal_chips(encoded_chips(bytes, repeats)),
{
    assert(legal_symbols(nibbles(bytes)));
    lemma_spread_legal(nibbles(bytes));
    lemma_offset_chips_legal(spread(nibbles(bytes)));
    lemma_offset_chips_legality(spread(nibbles(bytes)));
    lemma_oversampled_legality(offset_chips(spread(nibbles(bytes))), repeats);
    lemma_oversampled_shape(offset_chips(spread(nibbles(bytes))), repeats);
}

} // verus!
