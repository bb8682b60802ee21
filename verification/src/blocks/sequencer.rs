//! The sequencer block: walks a note sequence at a tempo.
use vstd::prelude::*;

verus! {

use crate::{SCALE, HALF_SCALE};
use crate::blocks::SignalSource;
use crate::note::Note;

/// Spacing threshold below which no gap is inserted between notes:
/// one twentieth of a beat (0.05, rounded down) in Q32.32.
pub const SPACING_GATE: i64 = 214748364;

/// A block that advances a beat counter (`progress`) by
/// `bpm / (SAMPLE_RATE * 60)` every tick, wrapping at the sequence
/// length, and outputs the frequency of the note under the counter.
/// When the spacing input is at least [`SPACING_GATE`] and the counter
/// is within `spacing / 2` beats of an integer beat boundary, it outputs
/// silence instead. The progress is the state carried across a hot
/// reload.
#[derive(Clone, Debug)]
pub struct SequencerBlock {
    /// The note sequence, in playing order; 0 Hz notes are rests.
    pub sequence: Vec<Note>,
    /// Where the block reads its tempo, in Q32.32 beats per minute.
    pub bpm: SignalSource,
    /// Where the block reads the gap width, in Q32.32 beats.
    pub spacing: SignalSource,
    /// Beats elapsed, Q32.32; advances each tick, wraps at the length.
    pub progress: i64,
}

impl SequencerBlock {
    /// Replaces the note sequence.
    pub fn update_sequence(&mut self, seq: Vec<Note>)
        ensures
            final(self).sequence == seq,
            final(self).bpm == old(self).bpm,
            final(self).spacing == old(self).spacing,
            final(self).progress == old(self).progress,
    {
        self.sequence = seq;
    }

    /// Replaces the tempo input.
    pub fn update_bpm(&mut self, bpm: SignalSource)
        ensures
            final(self).bpm == bpm,
            final(self).sequence == old(self).sequence,
            final(self).spacing == old(self).spacing,
            final(self).progress == old(self).progress,
    {
        self.bpm = bpm;
    }

    /// Replaces the spacing input.
    pub fn update_spacing(&mut self, spacing: SignalSource)
        ensures
            final(self).spacing == spacing,
            final(self).sequence == old(self).sequence,
            final(self).bpm == old(self).bpm,
            final(self).progress == old(self).progress,
    {
        self.spacing = spacing;
    }
}

/// The nearest integer beat boundary to `progress` (ties upward), Q32.32.
pub open spec fn spec_round_beat(progress: i64) -> int {
    ((progress + HALF_SCALE) / (SCALE as int)) * (SCALE as int)
}

/// The index of the note sounding at `progress`: the beat count floored
/// (negative progress counts as zero), modulo the sequence length.
pub open spec fn spec_note_index(len: int, progress: i64) -> int {
    let beat = if progress <= 0 {
        0
    } else {
        progress as int / (SCALE as int)
    };
    beat % len
}

/// The sequencer output at `progress` with a given spacing value: silence
/// inside a gap around a beat boundary, the note under the counter
/// otherwise, and silence for an empty sequence.
pub open spec fn spec_seq_value(notes: Seq<Note>, progress: i64, spacing: i64) -> i64 {
    let diff = progress - spec_round_beat(progress);
    let gap = spacing >= SPACING_GATE && (if diff < 0 {
        -diff
    } else {
        diff
    }) < spacing as int / 2;
    if gap || notes.len() == 0 {
        0
    } else {
        notes[spec_note_index(notes.len() as int, progress)].spec_freq()
    }
}

/// The sequencer wrap law: when the advanced beat counter lands past
/// the sequence length (but within one extra cycle, as one tick always
/// does for sane tempos), the single subtraction the step performs is
/// exactly reduction modulo the sequence length.
pub proof fn lemma_sequencer_wrap(p1: int, lenq: int)
    requires
        0 < lenq,
        lenq < p1 < 2 * lenq,
    ensures
        p1 - lenq == p1 % lenq,
{
    vstd::arithmetic::div_mod::lemma_fundamental_div_mod_converse_mod(p1, lenq, 1, p1 - lenq);
}

/// Evaluates the sequencer output.
pub fn seq_value(notes: &Vec<Note>, progress: i64, spacing: i64) -> (r: i64)
    ensures
        r == spec_seq_value(notes@, progress, spacing),
{
    proof {
        vstd::arithmetic::div_mod::lemma_div_is_ordered(
            i64::MIN as int + HALF_SCALE as int,
            progress + HALF_SCALE,
            SCALE as int,
        );
        vstd::arithmetic::div_mod::lemma_div_is_ordered(
            progress + HALF_SCALE,
            i64::MAX as int + HALF_SCALE as int,
            SCALE as int,
        );
    }
    let shifted: i128 = (progress as i128) + (HALF_SCALE as i128);
    let beats: i128 = shifted.checked_div_euclid(SCALE as i128).unwrap();
    let round: i128 = beats * (SCALE as i128);
    let diff: i128 = (progress as i128) - round;
    let adiff: i128 = if diff < 0 {
        -diff
    } else {
        diff
    };
    let gap = spacing >= SPACING_GATE && adiff < (spacing.checked_div_euclid(2).unwrap() as i128);
    if gap || notes.len() == 0 {
        0
    } else {
        let beat: i64 = if progress <= 0 {
            0
        } else {
            proof {
                vstd::arithmetic::div_mod::lemma_div_is_ordered(0, progress as int, SCALE as int);
                vstd::arithmetic::div_mod::lemma_div_is_ordered(
                    progress as int,
                    i64::MAX as int,
                    SCALE as int,
                );
            }
            progress.checked_div_euclid(SCALE).unwrap()
        };
        let idx: usize = (beat as usize) % notes.len();
        notes[idx].frequency()
    }
}

} // verus!
