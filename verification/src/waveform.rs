//! Model of the waveform generator: pulse templates, run merging, minimum
//! pulse width and the unary loop/exit code.
use vstd::prelude::*;
use crate::chips::{
    encoded_chips, legal_chips, lemma_offset_legality, lemma_oversampled_shape, nibbles,
    offset_chips, spread,
};
use crate::words::all_bits;

verus! {

/// A stretch of the output pin at one level, measured in peripheral clock
/// cycles. `Nop` stands for "no run was closed": it never reaches the pin.
#[derive(PartialEq, Eq, Structural, Copy, Clone, Debug)]
pub enum Level {
    High(u8),
    Low(u8),
    Nop,
}

impl Level {
    /// Cycles this level lasts; `Nop` lasts none.
    pub open spec fn duration(self) -> nat {
        match self {
            Level::High(d) => d as nat,
            Level::Low(d) => d as nat,
            Level::Nop => 0,
        }
    }

    /// Whether two levels hold the pin at the same height.
    pub open spec fn same_height(self, other: Level) -> bool {
        ||| self is High && other is High
        ||| self is Low && other is Low
    }

    /// Whether two levels hold the pin at opposite heights.
    pub open spec fn opposite_height(self, other: Level) -> bool {
        ||| self is High && other is Low
        ||| self is Low && other is High
    }
}

/// The peripheral cannot time a pulse shorter than this many cycles.
pub const MIN_PULSE_CYCLES: u8 = 4;

/// Cycles in the template of one chip.
pub const CYCLES_PER_CHIP: usize = 16;

/// The half-sine pulse template of a chip: three segments that fill 16 cycles.
pub open spec fn wave_template(chip: u8) -> Seq<Level> {
    if chip == 0b00 {
        seq![Level::Low(4), Level::High(8), Level::Low(4)]
    } else if chip == 0b01 {
        seq![Level::Low(8), Level::High(8), Level::Nop]
    } else if chip == 0b10 {
        seq![Level::High(8), Level::Low(8), Level::Nop]
    } else {
        seq![Level::High(4), Level::Low(8), Level::High(4)]
    }
}

/// The templates of a chip stream, laid end to end.
pub open spec fn chip_levels(chips: Seq<u8>) -> Seq<Level> {
    Seq::new(3 * chips.len(), |j: int| wave_template(chips[j / 3])[j % 3])
}

/// The open run after `next` arrives: a segment at the same height extends
/// it, one at the opposite height replaces it, `Nop` leaves it alone.
pub open spec fn run_after(open: Level, next: Level) -> Level {
    match (open, next) {
        (Level::High(d), Level::High(n)) => Level::High((d + n) as u8),
        (Level::Low(d), Level::Low(n)) => Level::Low((d + n) as u8),
        (Level::High(_), Level::Low(_)) => next,
        (Level::Low(_), Level::High(_)) => next,
        _ => open,
    }
}

/// What `next` closes: the open run when the height changes, else `Nop`.
pub open spec fn run_closed(open: Level, next: Level) -> Level {
    if open.opposite_height(next) {
        open
    } else {
        Level::Nop
    }
}

/// Extending the open run by `next` stays within a `u8`.
pub open spec fn run_fits(open: Level, next: Level) -> bool {
    open.same_height(next) ==> open.duration() + next.duration() <= u8::MAX
}

/// The run that is still open once all of `levels` has been scanned. The scan
/// starts from an empty low run.
pub open spec fn open_run(levels: Seq<Level>) -> Level
    decreases levels.len(),
{
    if levels.len() == 0 {
        Level::Low(0)
    } else {
        run_after(open_run(levels.drop_last()), levels.last())
    }
}

/// The programmable length of a closed run: at least the minimum pulse
/// width; `Nop` has none.
pub open spec fn normalized(closed: Level) -> Option<u8> {
    match closed {
        Level::High(d) => Some(if d > MIN_PULSE_CYCLES { d } else { MIN_PULSE_CYCLES }),
        Level::Low(d) => Some(if d > MIN_PULSE_CYCLES { d } else { MIN_PULSE_CYCLES }),
        Level::Nop => None,
    }
}

/// The runs that scanning `levels` closes, in order, each as `Level`.
pub open spec fn closed_runs(levels: Seq<Level>) -> Seq<Level>
    decreases levels.len(),
{
    if levels.len() == 0 {
        Seq::empty()
    } else {
        let before = levels.drop_last();
        let closed = run_closed(open_run(before), levels.last());
        if closed is Nop {
            closed_runs(before)
        } else {
            closed_runs(before).push(closed)
        }
    }
}

/// The normalized lengths of the runs that scanning `levels` closes.
pub open spec fn run_lengths(levels: Seq<Level>) -> Seq<u8> {
    closed_runs(levels).map_values(|run: Level| normalized(run).unwrap())
}

/// The loop/exit code of one run: a `1` for every two cycles beyond the
/// first four, then the `0` that leaves the loop.
pub open spec fn unary_code(length: u8) -> Seq<u8> {
    Seq::new(((length - MIN_PULSE_CYCLES) / 2) as nat, |i: int| 1u8).push(0u8)
}

/// The codes of a sequence of run lengths, one after the other.
pub open spec fn unary_stream(lengths: Seq<u8>) -> Seq<u8>
    decreases lengths.len(),
{
    if lengths.len() == 0 {
        Seq::empty()
    } else {
        unary_stream(lengths.drop_last()) + unary_code(lengths.last())
    }
}

/// The bit stream for a chip stream: the `0` that the peripheral's start-up
/// wait consumes, then the code of every closed run.
pub open spec fn waveform_bits(chips: Seq<u8>) -> Seq<u8> {
    seq![0u8] + unary_stream(run_lengths(chip_levels(chips)))
}

/// A run as it stands between two chips: at a height, even, and no longer than
/// the longest template segment.
pub open spec fn settled(run: Level) -> bool {
    &&& run !is Nop
    &&& run.duration() <= 8
    &&& run.duration() % 2 == 0
}

/// The sum of a sequence of run lengths, in cycles.
pub open spec fn total_cycles(lengths: Seq<u8>) -> nat
    decreases lengths.len(),
{
    if lengths.len() == 0 {
        0
    } else {
        total_cycles(lengths.drop_last()) + lengths.last() as nat
    }
}

/// Cycles that the minimum pulse width adds to a chip stream. A stream that
/// begins high first closes the empty low run from which the scan starts,
/// and that run is stretched to the minimum; no other run is shorter than
/// the minimum.
pub open spec fn clamp_excess(chips: Seq<u8>) -> nat {
    if chips.len() > 0 && chips[0] >= 0b10 {
        MIN_PULSE_CYCLES as nat
    } else {
        0
    }
}

/// The number of `1`s that a bit sequence begins with.
pub open spec fn leading_ones(bits: Seq<u8>) -> nat
    decreases bits.len(),
{
    if bits.len() == 0 || bits[0] != 1 {
        0
    } else {
        1 + leading_ones(bits.subrange(1, bits.len() as int))
    }
}

/// The run length that a loop/exit code stands for: two cycles for every
/// leading `1`, and the four cycles of the shortest pulse.
pub open spec fn unary_decoded(code: Seq<u8>) -> nat {
    2 * leading_ones(code) + MIN_PULSE_CYCLES as nat
}

/// The run lengths that a stream of loop/exit codes stands for. Bits behind
/// the last `0` close no run and are not read.
pub open spec fn decoded_lengths(bits: Seq<u8>) -> Seq<nat>
    decreases bits.len(),
{
    let ones = leading_ones(bits);
    if ones < bits.len() {
        seq![unary_decoded(bits)] + decoded_lengths(bits.subrange(ones as int + 1, bits.len() as int))
    } else {
        Seq::empty()
    }
}

/// The pin, cycle by cycle, while a level lasts; `true` is high.
pub open spec fn level_samples(level: Level) -> Seq<bool> {
    match level {
        Level::High(d) => Seq::new(d as nat, |i: int| true),
        Level::Low(d) => Seq::new(d as nat, |i: int| false),
        Level::Nop => Seq::empty(),
    }
}

/// The pin, cycle by cycle, over a sequence of levels.
pub open spec fn samples(levels: Seq<Level>) -> Seq<bool>
    decreases levels.len(),
{
    if levels.len() == 0 {
        Seq::empty()
    } else {
        samples(levels.drop_last()) + level_samples(levels.last())
    }
}

/// The sixteen cycles of one chip, a half-sine pulse on each rail squared
/// off: `0000111111110000` for `00`, `0000000011111111` for `01`,
/// `1111111100000000` for `10`, `1111000000001111` for `11`.
pub open spec fn chip_samples(chip: u8) -> Seq<bool> {
    Seq::new(
        CYCLES_PER_CHIP as nat,
        |i: int|
            if chip == 0b00 {
                4 <= i < 12
            } else if chip == 0b01 {
                8 <= i
            } else if chip == 0b10 {
                i < 8
            } else {
                i < 4 || 12 <= i
            },
    )
}

/// The waveform of a chip stream: the cycles of its chips, end to end.
pub open spec fn waveform(chips: Seq<u8>) -> Seq<bool> {
    Seq::new(16 * chips.len(), |j: int| chip_samples(chips[j / 16])[j % 16])
}

/// Each run is at the other height than the run before it.
pub open spec fn alternating(runs: Seq<Level>) -> bool {
    forall|i: int| 0 <= i < runs.len() - 1 ==> (#[trigger] runs[i]).opposite_height(runs[i + 1])
}

/// Scanning one more segment moves the open run by `run_after` and appends
/// what `run_closed` gives, unless that is `Nop`.
pub proof fn lemma_scan_segment(levels: Seq<Level>, next: Level)
    ensures
        open_run(levels.push(next)) == run_after(open_run(levels), next),
        closed_runs(levels.push(next)) == if run_closed(open_run(levels), next) is Nop {
            closed_runs(levels)
        } else {
            closed_runs(levels).push(run_closed(open_run(levels), next))
        },
        run_lengths(levels.push(next)) == match normalized(run_closed(open_run(levels), next)) {
            Some(length) => run_lengths(levels).push(length),
            None => run_lengths(levels),
        },
{
    assert(levels.push(next).drop_last() =~= levels);
}

/// The levels of a chip stream extended by one chip are the levels of the
/// stream followed by the chip's template.
pub proof fn lemma_chip_levels_push(chips: Seq<u8>, chip: u8)
    ensures
        chip_levels(chips.push(chip)) == chip_levels(chips) + wave_template(chip),
        chip_levels(chips.push(chip)) == chip_levels(chips).push(wave_template(chip)[0]).push(
            wave_template(chip)[1],
        ).push(wave_template(chip)[2]),
{
    assert(chip_levels(chips.push(chip)) =~= chip_levels(chips) + wave_template(chip));
    assert(chip_levels(chips) + wave_template(chip) =~= chip_levels(chips).push(
        wave_template(chip)[0],
    ).push(wave_template(chip)[1]).push(wave_template(chip)[2]));
}

/// Between chips the open run is settled: the scan of a legal chip stream
/// never leaves a run longer than eight cycles open at a chip boundary.
pub proof fn lemma_open_run_settled(chips: Seq<u8>)
    requires
        legal_chips(chips),
    ensures
        settled(open_run(chip_levels(chips))),
    decreases chips.len(),
{
    if chips.len() == 0 {
        assert(chip_levels(chips) =~= Seq::<Level>::empty());
    } else {
        let before = chips.drop_last();
        let chip = chips.last();
        assert(chips =~= before.push(chip));
        lemma_open_run_settled(before);
        lemma_chip_levels_push(before, chip);
        let template = wave_template(chip);
        let l0 = chip_levels(before);
        let l1 = l0.push(template[0]);
        let l2 = l1.push(template[1]);
        lemma_scan_segment(l0, template[0]);
        lemma_scan_segment(l1, template[1]);
        lemma_scan_segment(l2, template[2]);
    }
}

proof fn lemma_total_cycles_push(lengths: Seq<u8>, length: u8)
    ensures
        total_cycles(lengths.push(length)) == total_cycles(lengths) + length as nat,
{
    assert(lengths.push(length).drop_last() =~= lengths);
}

/// Duration floor: every run length that a legal chip stream closes is even
/// and at least the minimum pulse width.
pub proof fn lemma_duration_floor(chips: Seq<u8>)
    requires
        legal_chips(chips),
    ensures
        forall|i: int|
            0 <= i < run_lengths(chip_levels(chips)).len() ==> {
                &&& #[trigger] run_lengths(chip_levels(chips))[i] >= MIN_PULSE_CYCLES
                &&& run_lengths(chip_levels(chips))[i] % 2 == 0
            },
    decreases chips.len(),
{
    if chips.len() == 0 {
        assert(chip_levels(chips) =~= Seq::<Level>::empty());
    } else {
        let before = chips.drop_last();
        let chip = chips.last();
        assert(chips =~= before.push(chip));
        lemma_duration_floor(before);
        lemma_open_run_settled(before);
        lemma_chip_levels_push(before, chip);
        let template = wave_template(chip);
        let l0 = chip_levels(before);
        let l1 = l0.push(template[0]);
        let l2 = l1.push(template[1]);
        lemma_scan_segment(l0, template[0]);
        lemma_scan_segment(l1, template[1]);
        lemma_scan_segment(l2, template[2]);
    }
}

/// Duration conservation: every cycle of the templates is in exactly one run.
/// The runs that a legal chip stream closes, together with the run that is
/// still open at its end, last sixteen cycles for each chip, and beyond that
/// only what the minimum pulse width added.
pub proof fn lemma_duration_conservation(chips: Seq<u8>)
    requires
        legal_chips(chips),
    ensures
        total_cycles(run_lengths(chip_levels(chips))) + open_run(chip_levels(chips)).duration()
            == CYCLES_PER_CHIP * chips.len() + clamp_excess(chips),
        chips.len() > 0 ==> open_run(chip_levels(chips)).duration() >= MIN_PULSE_CYCLES,
    decreases chips.len(),
{
    if chips.len() == 0 {
        assert(chip_levels(chips) =~= Seq::<Level>::empty());
        assert(run_lengths(chip_levels(chips)) =~= Seq::<u8>::empty());
    } else {
        let before = chips.drop_last();
        let chip = chips.last();
        assert(chips =~= before.push(chip));
        lemma_duration_conservation(before);
        lemma_open_run_settled(before);
        lemma_chip_levels_push(before, chip);
        let template = wave_template(chip);
        let l0 = chip_levels(before);
        let l1 = l0.push(template[0]);
        let l2 = l1.push(template[1]);
        lemma_scan_segment(l0, template[0]);
        lemma_scan_segment(l1, template[1]);
        lemma_scan_segment(l2, template[2]);
        if before.len() == 0 {
            assert(l0 =~= Seq::<Level>::empty());
            assert(run_lengths(l0) =~= Seq::<u8>::empty());
        } else {
            assert(before[0] == chips[0]);
        }
        if normalized(run_closed(open_run(l0), template[0])) is Some {
            lemma_total_cycles_push(
                run_lengths(l0),
                normalized(run_closed(open_run(l0), template[0])).unwrap(),
            );
        }
        if normalized(run_closed(open_run(l1), template[1])) is Some {
            lemma_total_cycles_push(
                run_lengths(l1),
                normalized(run_closed(open_run(l1), template[1])).unwrap(),
            );
        }
        if normalized(run_closed(open_run(l2), template[2])) is Some {
            lemma_total_cycles_push(
                run_lengths(l2),
                normalized(run_closed(open_run(l2), template[2])).unwrap(),
            );
        }
    }
}

/// Where the run left open is exactly as long as what the minimum pulse width
/// added, as it is where there are no chips, the closed runs alone last
/// sixteen cycles for each chip.
pub proof fn lemma_closed_runs_conservation(chips: Seq<u8>)
    requires
        legal_chips(chips),
        open_run(chip_levels(chips)).duration() == clamp_excess(chips),
    ensures
        total_cycles(run_lengths(chip_levels(chips))) == CYCLES_PER_CHIP * chips.len(),
{
    lemma_duration_conservation(chips);
}

/// Duration conservation through the chip encoder: the runs of an encoded
/// byte stream, the open one with them, last sixteen cycles for each of the
/// `repeats` copies of each offset chip, and what the minimum pulse width
/// added.
pub proof fn lemma_encoded_duration_conservation(bytes: Seq<u8>, repeats: nat)
    ensures
        total_cycles(run_lengths(chip_levels(encoded_chips(bytes, repeats)))) + open_run(
            chip_levels(encoded_chips(bytes, repeats)),
        ).duration() == CYCLES_PER_CHIP * repeats * offset_chips(spread(nibbles(bytes))).len()
            + clamp_excess(encoded_chips(bytes, repeats)),
{
    let offset = offset_chips(spread(nibbles(bytes)));
    lemma_offset_legality(bytes, repeats);
    lemma_oversampled_shape(offset, repeats);
    lemma_duration_conservation(encoded_chips(bytes, repeats));
    assert(CYCLES_PER_CHIP * (repeats * offset.len()) == CYCLES_PER_CHIP * repeats * offset.len())
        by (nonlinear_arith);
}

proof fn lemma_leading_ones_of_code(ones: nat)
    ensures
        leading_ones(Seq::new(ones, |i: int| 1u8).push(0u8)) == ones,
    decreases ones,
{
    let code = Seq::new(ones, |i: int| 1u8).push(0u8);
    if ones > 0 {
        lemma_leading_ones_of_code((ones - 1) as nat);
        assert(code.subrange(1, code.len() as int) =~= Seq::new((ones - 1) as nat, |i: int| 1u8).push(
            0u8,
        ));
    } else {
        assert(code[0] == 0u8);
    }
}

/// Unary coding round trip: the code of an even run length of at least four
/// cycles is some `1`s and one closing `0`, and counting the `1`s gives the
/// length back.
pub proof fn lemma_unary_round_trip(length: u8)
    requires
        length >= MIN_PULSE_CYCLES,
        length % 2 == 0,
    ensures
        unary_decoded(unary_code(length)) == length,
        unary_code(length).len() == leading_ones(unary_code(length)) + 1,
        unary_code(length).last() == 0,
{
    lemma_leading_ones_of_code(((length - MIN_PULSE_CYCLES) / 2) as nat);
}

proof fn lemma_samples_push(levels: Seq<Level>, next: Level)
    ensures
        samples(levels.push(next)) == samples(levels) + level_samples(next),
{
    assert(levels.push(next).drop_last() =~= levels);
}

/// One step of the scan keeps the runs a run-length code of what was
/// scanned: the closed runs and the open run, in order, alternate in height
/// and last, cycle by cycle, as the segments did.
proof fn lemma_runs_segment(levels: Seq<Level>, next: Level)
    requires
        open_run(levels) !is Nop,
        run_fits(open_run(levels), next),
        alternating(closed_runs(levels).push(open_run(levels))),
        samples(closed_runs(levels).push(open_run(levels))) == samples(levels),
    ensures
        open_run(levels.push(next)) !is Nop,
        alternating(closed_runs(levels.push(next)).push(open_run(levels.push(next)))),
        samples(closed_runs(levels.push(next)).push(open_run(levels.push(next)))) == samples(
            levels.push(next),
        ),
{
    let closed = closed_runs(levels);
    let open = open_run(levels);
    let after = levels.push(next);
    lemma_scan_segment(levels, next);
    lemma_samples_push(levels, next);
    lemma_samples_push(closed, open);
    lemma_samples_push(closed_runs(after), open_run(after));
    if open.opposite_height(next) {
        assert(samples(closed.push(open).push(next)) == samples(closed.push(open))
            + level_samples(next));
    } else if open.same_height(next) {
        assert(level_samples(open_run(after)) =~= level_samples(open) + level_samples(next));
        assert(samples(closed) + level_samples(open_run(after)) =~= samples(closed)
            + level_samples(open) + level_samples(next));
        assert forall|i: int| 0 <= i < closed.push(open_run(after)).len() - 1 implies (
        #[trigger] closed.push(open_run(after))[i]).opposite_height(
            closed.push(open_run(after))[i + 1],
        ) by {
            assert(closed.push(open)[i].opposite_height(closed.push(open)[i + 1]));
        }
    } else {
        assert(samples(levels) + level_samples(next) =~= samples(levels));
    }
}

/// The templates draw the waveform: the levels of a chip stream last, cycle
/// by cycle, as the waveform of its chips.
pub proof fn lemma_templates_draw_waveform(chips: Seq<u8>)
    requires
        legal_chips(chips),
    ensures
        samples(chip_levels(chips)) == waveform(chips),
    decreases chips.len(),
{
    if chips.len() == 0 {
        assert(chip_levels(chips) =~= Seq::<Level>::empty());
        assert(waveform(chips) =~= Seq::<bool>::empty());
    } else {
        let before = chips.drop_last();
        let chip = chips.last();
        assert(chips =~= before.push(chip));
        lemma_templates_draw_waveform(before);
        lemma_chip_levels_push(before, chip);
        let template = wave_template(chip);
        let l0 = chip_levels(before);
        let l1 = l0.push(template[0]);
        let l2 = l1.push(template[1]);
        lemma_samples_push(l0, template[0]);
        lemma_samples_push(l1, template[1]);
        lemma_samples_push(l2, template[2]);
        assert(level_samples(template[0]) + level_samples(template[1]) + level_samples(
            template[2],
        ) =~= chip_samples(chip));
        assert(samples(l0) + level_samples(template[0]) + level_samples(template[1])
            + level_samples(template[2]) =~= samples(l0) + chip_samples(chip));
        assert(waveform(chips) =~= waveform(before) + chip_samples(chip));
    }
}

/// Run merging is run-length coding. For a legal chip stream the closed runs
/// followed by the run still open alternate in height and last, cycle by
/// cycle, as the waveform of the chips; and every closed run but the first
/// is at least as long as the minimum pulse width, so that only the first,
/// which is empty where the waveform begins high, is stretched.
pub proof fn lemma_runs_code_waveform(chips: Seq<u8>)
    requires
        legal_chips(chips),
    ensures
        alternating(closed_runs(chip_levels(chips)).push(open_run(chip_levels(chips)))),
        samples(closed_runs(chip_levels(chips)).push(open_run(chip_levels(chips)))) == waveform(
            chips,
        ),
        forall|i: int|
            0 < i < closed_runs(chip_levels(chips)).len() ==> (#[trigger] closed_runs(
                chip_levels(chips),
            )[i]).duration() >= MIN_PULSE_CYCLES,
        chips.len() > 0 ==> open_run(chip_levels(chips)).duration() >= MIN_PULSE_CYCLES,
    decreases chips.len(),
{
    lemma_templates_draw_waveform(chips);
    if chips.len() == 0 {
        assert(chip_levels(chips) =~= Seq::<Level>::empty());
        assert(closed_runs(chip_levels(chips)) =~= Seq::<Level>::empty());
        lemma_samples_push(Seq::<Level>::empty(), Level::Low(0));
        assert(level_samples(Level::Low(0)) =~= Seq::<bool>::empty());
        assert(samples(Seq::<Level>::empty()) + level_samples(Level::Low(0)) =~= samples(
            Seq::<Level>::empty(),
        ));
    } else {
        let before = chips.drop_last();
        let chip = chips.last();
        assert(chips =~= before.push(chip));
        lemma_runs_code_waveform(before);
        lemma_templates_draw_waveform(before);
        lemma_open_run_settled(before);
        lemma_chip_levels_push(before, chip);
        let template = wave_template(chip);
        let l0 = chip_levels(before);
        let l1 = l0.push(template[0]);
        let l2 = l1.push(template[1]);
        lemma_scan_segment(l0, template[0]);
        lemma_scan_segment(l1, template[1]);
        lemma_scan_segment(l2, template[2]);
        lemma_runs_segment(l0, template[0]);
        lemma_runs_segment(l1, template[1]);
        lemma_runs_segment(l2, template[2]);
        if before.len() == 0 {
            assert(l0 =~= Seq::<Level>::empty());
            assert(closed_runs(l0) =~= Seq::<Level>::empty());
        }
    }
}

proof fn lemma_leading_ones_before_zero(ones: nat, tail: Seq<u8>)
    ensures
        leading_ones(Seq::new(ones, |i: int| 1u8).push(0u8) + tail) == ones,
    decreases ones,
{
    let bits = Seq::new(ones, |i: int| 1u8).push(0u8) + tail;
    if ones > 0 {
        lemma_leading_ones_before_zero((ones - 1) as nat, tail);
        assert(bits.subrange(1, bits.len() as int) =~= Seq::new((ones - 1) as nat, |i: int| 1u8).push(
            0u8,
        ) + tail);
        assert(bits[0] == 1u8);
    } else {
        assert(bits[0] == 0u8);
    }
}

proof fn lemma_unary_stream_front(length: u8, rest: Seq<u8>)
    ensures
        unary_stream(seq![length] + rest) == unary_code(length) + unary_stream(rest),
    decreases rest.len(),
{
    let all = seq![length] + rest;
    if rest.len() == 0 {
        assert(all.drop_last() =~= Seq::<u8>::empty());
        assert(unary_stream(all.drop_last()) =~= Seq::<u8>::empty());
        assert(unary_stream(all) =~= unary_code(length) + unary_stream(rest));
    } else {
        lemma_unary_stream_front(length, rest.drop_last());
        assert(all.drop_last() =~= seq![length] + rest.drop_last());
        assert(unary_stream(all) =~= unary_code(length) + unary_stream(rest));
    }
}

/// The unary stream reads back: counting the `1`s before each `0` gives the
/// run lengths again, in order, where they are even and at least the minimum
/// pulse width, as the lengths of a legal chip stream are.
pub proof fn lemma_unary_stream_round_trip(lengths: Seq<u8>)
    requires
        forall|i: int|
            0 <= i < lengths.len() ==> #[trigger] lengths[i] >= MIN_PULSE_CYCLES && lengths[i]
                % 2 == 0,
    ensures
        decoded_lengths(unary_stream(lengths)) == lengths.map_values(|length: u8| length as nat),
    decreases lengths.len(),
{
    let bits = unary_stream(lengths);
    let expected = lengths.map_values(|length: u8| length as nat);
    if lengths.len() == 0 {
        assert(decoded_lengths(bits) =~= expected);
    } else {
        let first = lengths[0];
        let rest = lengths.subrange(1, lengths.len() as int);
        let ones = ((first - MIN_PULSE_CYCLES) / 2) as nat;
        assert(lengths =~= seq![first] + rest);
        lemma_unary_stream_front(first, rest);
        lemma_leading_ones_before_zero(ones, unary_stream(rest));
        assert(bits.subrange(ones as int + 1, bits.len() as int) =~= unary_stream(rest));
        lemma_unary_stream_round_trip(rest);
        assert(decoded_lengths(bits) =~= expected);
    }
}

/// The codes of run lengths are made of bits.
pub proof fn lemma_unary_stream_is_bits(lengths: Seq<u8>)
    ensures
        all_bits(unary_stream(lengths)),
    decreases lengths.len(),
{
    if lengths.len() > 0 {
        lemma_unary_stream_is_bits(lengths.drop_last());
    }
}

/// The waveform generator puts out bits: every element of its stream is `0`
/// or `1`.
pub proof fn lemma_waveform_bits_are_bits(chips: Seq<u8>)
    ensures
        all_bits(waveform_bits(chips)),
{
    lemma_unary_stream_is_bits(run_lengths(chip_levels(chips)));
}

} // verus!
