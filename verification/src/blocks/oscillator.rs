//! The oscillator block: a phase accumulator shaped by a waveform.
use vstd::prelude::*;

verus! {

use crate::{SCALE, HALF_SCALE};
use crate::blocks::SignalSource;

/// The shape an oscillator maps its phase through.
#[derive(Clone, Copy, PartialEq, Eq, Structural, Debug)]
pub enum Waveform {
    Sinus,
    Sawtooth,
    Square,
    Triangle,
}

/// A block holding a phase in `[0, 1)` that advances every tick by
/// `frequency / SAMPLE_RATE`, where the frequency is read from its
/// input source. Its output maps the phase through the waveform. The
/// phase is the state carried across a hot reload.
#[derive(Clone, Copy, PartialEq, Eq, Structural, Debug)]
pub struct OscillatorBlock {
    /// Where the oscillator reads its frequency (in Q32.32 Hz).
    pub freq_source: SignalSource,
    /// Current phase in `[0, 1)`, Q32.32.
    pub phase: i64,
    /// The selected waveform.
    pub wave: Waveform,
}

impl OscillatorBlock {
    /// Replaces the frequency input.
    pub fn update_frequency(&mut self, freq_source: SignalSource)
        ensures
            *final(self) == (OscillatorBlock { freq_source, ..*old(self) }),
    {
        self.freq_source = freq_source;
    }

    /// Replaces the waveform.
    pub fn update_waveform(&mut self, wave: Waveform)
        ensures
            *final(self) == (OscillatorBlock { wave, ..*old(self) }),
    {
        self.wave = wave;
    }
}

/// First coefficient (0.775 in Q32.32) of the sine refinement step.
pub const SINE_A: i64 = 3328599654;

/// Second coefficient (0.225 in Q32.32) of the sine refinement step.
pub const SINE_B: i64 = 966367642;

/// `sin(2 * pi * phase)` in Q32.32, approximated by the refined parabola
/// `s0 * (0.775 + 0.225 * s0)` with `s0 = 4u(1-u)` on each half wave;
/// the phase must lie in `[0, 1)`. The result lies in `[-1, 1]`.
pub open spec fn spec_sine(phase: i64) -> i64 {
    let x: int = if phase < HALF_SCALE {
        phase as int
    } else {
        phase - HALF_SCALE
    };
    let s0: int = (4 * x * (HALF_SCALE - x)) / 0x4000_0000;
    let t: int = SINE_A + (SINE_B * s0) / (SCALE as int);
    let s: int = (s0 * t) / (SCALE as int);
    if phase < HALF_SCALE {
        s as i64
    } else {
        (-s) as i64
    }
}

/// The waveform output for a phase in `[0, 1)`:
/// sine as [`spec_sine`]; sawtooth `1 - phase`; square `1` on the first
/// half of the cycle and `0` on the second; triangle `2 * phase` on the
/// first half and `2 * (1 - phase)` on the second.
pub open spec fn spec_waveform_value(w: Waveform, phase: i64) -> i64 {
    match w {
        Waveform::Sinus => spec_sine(phase),
        Waveform::Sawtooth => (SCALE - phase) as i64,
        Waveform::Square => if phase < HALF_SCALE {
            SCALE
        } else {
            0
        },
        Waveform::Triangle => if phase < HALF_SCALE {
            (2 * phase) as i64
        } else {
            (2 * (SCALE - phase)) as i64
        },
    }
}

/// The half-wave parabola `4 * x * (h - x) / 2^30` stays within `[0, 2^32]`
/// for `x` in `[0, h]`, `h = 2^31`.
proof fn lemma_parabola_bounds(x: int)
    requires
        0 <= x <= HALF_SCALE,
    ensures
        0 <= 4 * x * (HALF_SCALE - x),
        4 * x * (HALF_SCALE - x) <= 0x4000_0000_0000_0000,
        0 <= (4 * x * (HALF_SCALE - x)) / 0x4000_0000 <= SCALE,
{
    assert(0 <= 4 * x * (HALF_SCALE - x) <= 0x4000_0000_0000_0000) by (nonlinear_arith)
        requires
            0 <= x <= HALF_SCALE,
            HALF_SCALE == 2147483648i64,
    ;
    vstd::arithmetic::div_mod::lemma_div_is_ordered(0, 4 * x * (HALF_SCALE - x), 0x4000_0000);
    vstd::arithmetic::div_mod::lemma_div_is_ordered(
        4 * x * (HALF_SCALE - x),
        0x4000_0000_0000_0000,
        0x4000_0000,
    );
    assert(0x4000_0000_0000_0000int / 0x4000_0000int == SCALE as int);
}

/// Bounds of the refined sine value: for `s0` in `[0, 2^32]` the result
/// `s0 * (A + B * s0 / 2^32) / 2^32` lies in `[0, 2^32]`.
proof fn lemma_sine_refine_bounds(s0: int)
    requires
        0 <= s0 <= SCALE,
    ensures
        SINE_A <= SINE_A + (SINE_B * s0) / (SCALE as int) <= SCALE,
        0 <= (s0 * (SINE_A + (SINE_B * s0) / (SCALE as int))) / (SCALE as int) <= SCALE,
{
    let t = SINE_A + (SINE_B * s0) / (SCALE as int);
    assert(0 <= SINE_B * s0 <= SINE_B * SCALE) by (nonlinear_arith)
        requires
            0 <= s0 <= SCALE,
            SINE_B == 966367642i64,
            SCALE == 4294967296i64,
    ;
    vstd::arithmetic::div_mod::lemma_div_is_ordered(0, SINE_B * s0, SCALE as int);
    vstd::arithmetic::div_mod::lemma_div_is_ordered(
        SINE_B * s0,
        SINE_B as int * SCALE as int,
        SCALE as int,
    );
    vstd::arithmetic::div_mod::lemma_div_multiples_vanish(SINE_B as int, SCALE as int);
    assert(SINE_B as int * SCALE as int == SCALE as int * SINE_B as int) by (nonlinear_arith);
    assert(SINE_A <= t <= SCALE);
    assert(0 <= s0 * t <= SCALE as int * SCALE as int) by (nonlinear_arith)
        requires
            0 <= s0 <= SCALE,
            0 <= t <= SCALE,
    ;
    vstd::arithmetic::div_mod::lemma_div_is_ordered(0, s0 * t, SCALE as int);
    vstd::arithmetic::div_mod::lemma_div_is_ordered(
        s0 * t,
        SCALE as int * SCALE as int,
        SCALE as int,
    );
    vstd::arithmetic::div_mod::lemma_div_multiples_vanish(SCALE as int, SCALE as int);
}

/// The sine output stays within one amplitude unit: `|spec_sine(p)| <= 1.0`.
pub proof fn lemma_sine_bounds(phase: i64)
    requires
        0 <= phase < SCALE,
    ensures
        -SCALE <= spec_sine(phase) <= SCALE,
{
    let x: int = if phase < HALF_SCALE {
        phase as int
    } else {
        phase - HALF_SCALE
    };
    lemma_parabola_bounds(x);
    let s0: int = (4 * x * (HALF_SCALE - x)) / 0x4000_0000;
    lemma_sine_refine_bounds(s0);
}

/// Evaluates the approximate sine of `2 * pi * phase` in Q32.32.
pub fn sine_value(phase: i64) -> (r: i64)
    requires
        0 <= phase < SCALE,
    ensures
        r == spec_sine(phase),
{
    let (x, neg): (i64, bool) = if phase < HALF_SCALE {
        (phase, false)
    } else {
        (phase - HALF_SCALE, true)
    };
    proof {
        lemma_parabola_bounds(x as int);
    }
    let p0: i128 = 4 * (x as i128) * ((HALF_SCALE - x) as i128);
    let s0: i128 = p0.checked_div_euclid(0x4000_0000).unwrap();
    proof {
        lemma_sine_refine_bounds(s0 as int);
    }
    let t: i128 = (SINE_A as i128) + ((SINE_B as i128) * s0).checked_div_euclid(
        SCALE as i128,
    ).unwrap();
    let s: i128 = (s0 * t).checked_div_euclid(SCALE as i128).unwrap();
    if neg {
        -(s as i64)
    } else {
        s as i64
    }
}

/// Evaluates the waveform output for a phase in `[0, 1)`.
pub fn waveform_value(w: Waveform, phase: i64) -> (r: i64)
    requires
        0 <= phase < SCALE,
    ensures
        r == spec_waveform_value(w, phase),
{
    match w {
        Waveform::Sinus => sine_value(phase),
        Waveform::Sawtooth => SCALE - phase,
        Waveform::Square => if phase < HALF_SCALE {
            SCALE
        } else {
            0
        },
        Waveform::Triangle => if phase < HALF_SCALE {
            2 * phase
        } else {
            2 * (SCALE - phase)
        },
    }
}

} // verus!
