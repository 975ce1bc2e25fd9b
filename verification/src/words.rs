//! Model of the bit packer: bits gathered thirty-two at a time, most
//! significant bit first, and what can be said of the words.
use vstd::prelude::*;

verus! {

/// Bits in one word of the peripheral's transmit queue.
pub const WORD_BITS: usize = 32;

/// Every element is `0` or `1`.
pub open spec fn all_bits(bits: Seq<u8>) -> bool {
    forall|i: int| 0 <= i < bits.len() ==> #[trigger] bits[i] <= 1
}

/// The word that holds at most thirty-two bits from its most significant end:
/// bit `i` stands at position `31 - i`, the positions behind the last bit
/// are zero.
pub open spec fn word_of(bits: Seq<u8>) -> u32
    decreases bits.len(),
{
    if bits.len() == 0 {
        0
    } else {
        word_of(bits.drop_last()) | ((bits.last() as u32) << ((WORD_BITS - bits.len()) as u32))
    }
}

/// Words that `bit_count` bits take: one for every thirty-two, and one for
/// what is left over.
pub open spec fn word_count(bit_count: nat) -> nat {
    (bit_count + 31) / 32
}

/// The bits that go into word `index`.
pub open spec fn word_bits(bits: Seq<u8>, index: int) -> Seq<u8> {
    bits.subrange(
        32 * index,
        if 32 * index + 32 <= bits.len() {
            32 * index + 32
        } else {
            bits.len() as int
        },
    )
}

/// The words of a bit stream.
pub open spec fn packed_words(bits: Seq<u8>) -> Seq<u32> {
    Seq::new(word_count(bits.len()), |index: int| word_of(word_bits(bits, index)))
}

/// Bit `i` of a word, counted from the most significant end.
pub open spec fn word_bit(word: u32, i: int) -> u8 {
    ((word >> ((31 - i) as u32)) & 1) as u8
}

/// The first `bit_count` bits of a word stream, read back most significant
/// bit first.
pub open spec fn unpacked_bits(words: Seq<u32>, bit_count: nat) -> Seq<u8> {
    Seq::new(bit_count, |j: int| word_bit(words[j / 32], j % 32))
}

/// Behind the bits that a word holds, every position is zero, whatever the
/// elements are.
pub proof fn lemma_word_padding(bits: Seq<u8>, i: int)
    requires
        bits.len() <= WORD_BITS,
        bits.len() <= i < WORD_BITS,
    ensures
        word_bit(word_of(bits), i) == 0,
    decreases bits.len(),
{
    if bits.len() > 0 {
        lemma_word_padding(bits.drop_last(), i);
        let before = word_of(bits.drop_last());
        let bit = bits.last() as u32;
        let shift = (WORD_BITS - bits.len()) as u32;
        let position = (31 - i) as u32;
        assert(((before | (bit << shift)) >> position) & 1 == (before >> position) & 1)
            by (bit_vector)
            requires
                position < shift,
                shift < 32,
                bit <= 255,
        ;
    } else {
        let position = (31 - i) as u32;
        assert((0u32 >> position) & 1 == 0) by (bit_vector);
    }
}

/// A word holds each of its bits at its position: bit `i` of the word is
/// element `i`, where the elements are bits.
pub proof fn lemma_word_holds_bits(bits: Seq<u8>, i: int)
    requires
        bits.len() <= WORD_BITS,
        all_bits(bits),
        0 <= i < bits.len(),
    ensures
        word_bit(word_of(bits), i) == bits[i],
    decreases bits.len(),
{
    let before = word_of(bits.drop_last());
    let bit = bits.last() as u32;
    let shift = (WORD_BITS - bits.len()) as u32;
    let position = (31 - i) as u32;
    if i < bits.len() - 1 {
        lemma_word_holds_bits(bits.drop_last(), i);
        assert(((before | (bit << shift)) >> position) & 1 == (before >> position) & 1)
            by (bit_vector)
            requires
                shift < position,
                position < 32,
                bit <= 1,
        ;
    } else {
        lemma_word_padding(bits.drop_last(), i);
        assert((before >> position) & 1 <= 1) by (bit_vector);
        assert(((before | (bit << shift)) >> position) & 1 == bit) by (bit_vector)
            requires
                shift == position,
                position < 32,
                bit <= 1,
                (before >> position) & 1 == 0,
        ;
    }
}

/// Bit packing: the words of `L` bits are `ceil(L / 32)` in number, read back
/// most significant bit first they give the `L` bits again, and behind them
/// the last word holds zeros.
pub proof fn lemma_pack_round_trip(bits: Seq<u8>)
    requires
        all_bits(bits),
    ensures
        packed_words(bits).len() == word_count(bits.len()),
        bits.len() > 0 ==> packed_words(bits).len() * 32 >= bits.len() > (packed_words(
            bits,
        ).len() - 1) * 32,
        bits.len() == 0 ==> packed_words(bits).len() == 0,
        unpacked_bits(packed_words(bits), bits.len()) == bits,
        forall|j: int|
            bits.len() <= j < 32 * packed_words(bits).len() ==> #[trigger] word_bit(
                packed_words(bits)[j / 32],
                j % 32,
            ) == 0,
{
    let words = packed_words(bits);
    assert forall|j: int| 0 <= j < bits.len() implies unpacked_bits(words, bits.len())[j]
        == bits[j] by {
        lemma_word_holds_bits(word_bits(bits, j / 32), j % 32);
    }
    assert(unpacked_bits(words, bits.len()) =~= bits);
    assert forall|j: int| bits.len() <= j < 32 * words.len() implies #[trigger] word_bit(
        words[j / 32],
        j % 32,
    ) == 0 by {
        lemma_word_padding(word_bits(bits, j / 32), j % 32);
    }
}

} // verus!
