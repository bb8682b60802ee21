//! Pitch spellings and equal-tempered frequencies.
//!
//! A [`Note`] holds a frequency in Q32.32 fixed point. Frequencies come
//! from a key number through equal-tempered tuning anchored at A4 =
//! 440 Hz: key `n` sounds at `440 * 2^((n - 48) / 12)` Hz. The sentinel
//! "silent" note is 0 Hz.
use vstd::prelude::*;

verus! {

use crate::SCALE;
use crate::fixed::clamp_i64;
use vstd::slice::slice_index_get;
use vstd::string::StringSliceAdditionalSpecFns;

/// 440 Hz, the A4 anchor, in Q32.32.
pub const A4_FREQ: i64 = 1889785610240;

/// A pitch, stored as its frequency in Q32.32 fixed point.
#[derive(Clone, Copy, PartialEq, Eq, Structural, Debug)]
pub struct Note(i64);

/// The equal-tempered ratio `2^(j/12)` in Q32.32, rounded to nearest,
/// for a semitone offset `j` in `[0, 12)`; zero outside that range.
pub open spec fn spec_ratio(j: int) -> int {
    if j == 0 {
        4294967296
    } else if j == 1 {
        4550359342
    } else if j == 2 {
        4820937788
    } else if j == 3 {
        5107605667
    } else if j == 4 {
        5411319705
    } else if j == 5 {
        5733093519
    } else if j == 6 {
        6074001000
    } else if j == 7 {
        6435179895
    } else if j == 8 {
        6817835604
    } else if j == 9 {
        7223245206
    } else if j == 10 {
        7652761717
    } else if j == 11 {
        8107818609
    } else {
        0
    }
}

/// `base * 2^k` for `k >= 0`, clamped to `i64`; `base` must be non-negative.
pub open spec fn spec_scale_up(base: int, k: nat) -> i64
    decreases k,
{
    if k == 0 {
        clamp_i64(base)
    } else {
        spec_scale_up(base * 2, (k - 1) as nat)
    }
}

/// `floor(base / 2^k)` for `k >= 0`.
pub open spec fn spec_scale_down(base: int, k: nat) -> int
    decreases k,
{
    if k == 0 {
        base
    } else {
        spec_scale_down(base / 2, (k - 1) as nat)
    }
}

/// The frequency, in Q32.32, of key number `n`: `440 * 2^((n - 48) / 12)`,
/// computed from the rounded semitone ratio table and exact octave shifts,
/// clamped to the `i64` range.
pub open spec fn spec_key_freq(n: int) -> i64 {
    let j = (n - 48) % 12;
    let k = (n - 48) / 12;
    let base = (A4_FREQ * spec_ratio(j)) / (SCALE as int);
    if k >= 0 {
        spec_scale_up(base, k as nat)
    } else {
        spec_scale_down(base, (-k) as nat) as i64
    }
}

/// The note with the given Q32.32 frequency, as a specification value.
pub closed spec fn spec_note_of(freq: i64) -> Note {
    Note(freq)
}

/// `spec_note_of` inverts `spec_freq`: two notes with one frequency are
/// one note.
pub proof fn lemma_note_of(freq: i64, n: Note)
    requires
        n.spec_freq() == freq,
    ensures
        n == spec_note_of(freq),
{
}

impl Note {
    /// The sentinel silent note: 0 Hz.
    pub fn silent() -> (r: Note)
        ensures
            r.spec_freq() == 0,
    {
        Note(0)
    }

    /// The note's frequency in Q32.32 fixed point.
    pub closed spec fn spec_freq(self) -> i64 {
        self.0
    }

    /// Builds the note for equal-tempered key number `n` (A4 is key 48).
    pub fn from_key(n: i32) -> (r: Note)
        ensures
            r.spec_freq() == spec_key_freq(n as int),
    {
        let m: i64 = (n as i64) - 48;
        let j: i64 = m.checked_rem_euclid(12).unwrap();
        let k: i64 = m.checked_div_euclid(12).unwrap();
        let ratio = ratio_q32(j);
        proof {
            assert(0 <= A4_FREQ as int * ratio as int <= A4_FREQ as int * 0x2_0000_0000)
                by (nonlinear_arith)
                requires
                    0 <= ratio < 0x2_0000_0000i64,
                    A4_FREQ == 1889785610240i64,
            ;
        }
        let wide: i128 = (A4_FREQ as i128) * (ratio as i128);
        let base128: i128 = wide.checked_div_euclid(SCALE as i128).unwrap();
        proof {
            vstd::arithmetic::div_mod::lemma_div_is_ordered(
                0,
                A4_FREQ as int * ratio as int,
                SCALE as int,
            );
            vstd::arithmetic::div_mod::lemma_div_is_ordered(
                A4_FREQ as int * ratio as int,
                A4_FREQ as int * 0x2_0000_0000,
                SCALE as int,
            );
            vstd::arithmetic::div_mod::lemma_div_by_multiple(
                2 * A4_FREQ as int,
                SCALE as int,
            );
            assert(A4_FREQ as int * 0x2_0000_0000 == (2 * A4_FREQ as int) * (SCALE as int))
                by (nonlinear_arith)
                requires
                    A4_FREQ == 1889785610240i64,
                    SCALE == 4294967296i64,
            ;
        }
        let base: i64 = base128 as i64;
        if k >= 0 {
            Note(scale_up(base, k))
        } else {
            Note(scale_down(base, -k))
        }
    }

    /// The note's frequency in Q32.32 fixed point.
    pub fn frequency(self) -> (r: i64)
        ensures
            r == self.spec_freq(),
    {
        self.0
    }
}

/// Doubles `base` `k` times, saturating at `i64::MAX`.
fn scale_up(base: i64, k: i64) -> (r: i64)
    requires
        base >= 0,
        k >= 0,
    ensures
        r == spec_scale_up(base as int, k as nat),
{
    let mut v: i64 = base;
    let mut i: i64 = 0;
    while i < k
        invariant
            0 <= i <= k,
            v >= 0,
            spec_scale_up(v as int, (k - i) as nat) == spec_scale_up(base as int, k as nat),
        decreases k - i,
    {
        if v > 4611686018427387903i64 {
            proof {
                lemma_scale_up_sat(v as int * 2, (k - i - 1) as nat);
                lemma_scale_up_sat_from_max((k - i - 1) as nat);
            }
            v = i64::MAX;
        } else {
            v = v * 2;
        }
        i = i + 1;
    }
    v
}

/// Halves `base` `k` times (floor division).
fn scale_down(base: i64, k: i64) -> (r: i64)
    requires
        base >= 0,
        k >= 0,
    ensures
        r == spec_scale_down(base as int, k as nat),
{
    let mut v: i64 = base;
    let mut i: i64 = 0;
    while i < k
        invariant
            0 <= i <= k,
            v >= 0,
            spec_scale_down(v as int, (k - i) as nat) == spec_scale_down(base as int, k as nat),
        decreases k - i,
    {
        proof {
            vstd::arithmetic::div_mod::lemma_div_is_ordered(0, v as int, 2);
            vstd::arithmetic::div_mod::lemma_div_is_ordered(v as int, i64::MAX as int, 2);
        }
        v = v.checked_div_euclid(2).unwrap();
        i = i + 1;
    }
    v
}

/// Once a value exceeds the `i64` range, further doublings stay saturated.
proof fn lemma_scale_up_sat(base: int, k: nat)
    requires
        base > i64::MAX,
    ensures
        spec_scale_up(base, k) == i64::MAX,
    decreases k,
{
    if k > 0 {
        lemma_scale_up_sat(base * 2, (k - 1) as nat);
    }
}

/// Doubling from exactly `i64::MAX` saturates at every later step too.
proof fn lemma_scale_up_sat_from_max(k: nat)
    ensures
        spec_scale_up(i64::MAX as int, k) == i64::MAX,
    decreases k,
{
    if k > 0 {
        lemma_scale_up_sat(i64::MAX as int * 2, (k - 1) as nat);
    }
}

/// The Q32.32 ratio `2^(j/12)` for `j` in `[0, 12)`.
fn ratio_q32(j: i64) -> (r: i64)
    ensures
        r == spec_ratio(j as int),
        0 <= r < 0x2_0000_0000i64,
{
    if j == 0 {
        4294967296
    } else if j == 1 {
        4550359342
    } else if j == 2 {
        4820937788
    } else if j == 3 {
        5107605667
    } else if j == 4 {
        5411319705
    } else if j == 5 {
        5733093519
    } else if j == 6 {
        6074001000
    } else if j == 7 {
        6435179895
    } else if j == 8 {
        6817835604
    } else if j == 9 {
        7223245206
    } else if j == 10 {
        7652761717
    } else if j == 11 {
        8107818609
    } else {
        0
    }
}

/// Whether a byte is an ASCII decimal digit.
pub open spec fn is_digit_byte(b: u8) -> bool {
    48 <= b <= 57
}

/// The index of the first ASCII digit at or after `i`, or `s.len()` if
/// there is none.
pub open spec fn spec_split_idx(s: Seq<u8>, i: int) -> int
    decreases s.len() - i,
{
    if i < 0 || i >= s.len() {
        i
    } else if is_digit_byte(s[i]) {
        i
    } else {
        spec_split_idx(s, i + 1)
    }
}

/// The semitone offset (1 = C .. 12 = B) for a pitch-class spelling,
/// or -1 when the spelling is unknown.
pub open spec fn spec_key_offset(k: Seq<u8>) -> int {
    if k.len() == 1 {
        let c = k[0];
        if c == 67 {
            1
        } else if c == 68 {
            3
        } else if c == 69 {
            5
        } else if c == 70 {
            6
        } else if c == 71 {
            8
        } else if c == 65 {
            10
        } else if c == 66 {
            12
        } else {
            -1
        }
    } else if k.len() == 2 {
        let c = k[0];
        let d = k[1];
        if d == 35 {
            if c == 67 {
                2
            } else if c == 68 {
                4
            } else if c == 70 {
                7
            } else if c == 71 {
                9
            } else if c == 65 {
                11
            } else {
                -1
            }
        } else if d == 98 {
            if c == 68 {
                2
            } else if c == 69 {
                4
            } else if c == 71 {
                7
            } else if c == 65 {
                9
            } else if c == 66 {
                11
            } else {
                -1
            }
        } else {
            -1
        }
    } else {
        -1
    }
}

/// Whether every byte of `d` is an ASCII digit.
pub open spec fn spec_all_digits(d: Seq<u8>) -> bool {
    forall|j: int| 0 <= j < d.len() ==> is_digit_byte(#[trigger] d[j])
}

/// The decimal value of a digit string.
pub open spec fn spec_digits_val(d: Seq<u8>) -> int
    decreases d.len(),
{
    if d.len() == 0 {
        0
    } else {
        spec_digits_val(d.take(d.len() - 1)) * 10 + (d[d.len() - 1] - 48)
    }
}

/// Ten to the power `k`.
pub open spec fn spec_pow10(k: nat) -> int
    decreases k,
{
    if k == 0 {
        1
    } else {
        10 * spec_pow10((k - 1) as nat)
    }
}

/// The first few powers of ten, spelled out.
pub proof fn lemma_pow10_small()
    ensures
        spec_pow10(0) == 1,
        spec_pow10(1) == 10,
        spec_pow10(2) == 100,
        spec_pow10(3) == 1000,
        spec_pow10(4) == 10000,
        spec_pow10(5) == 100000,
{
    assert(spec_pow10(0) == 1);
    assert(spec_pow10(1) == 10);
    assert(spec_pow10(2) == 100);
    assert(spec_pow10(3) == 1000);
    assert(spec_pow10(4) == 10000);
    assert(spec_pow10(5) == 100000);
}

/// Powers of ten grow with the exponent.
pub proof fn lemma_pow10_mono(a: nat, b: nat)
    requires
        a <= b,
    ensures
        spec_pow10(a) <= spec_pow10(b),
    decreases b,
{
    if a < b && b > 0 {
        lemma_pow10_mono(a, (b - 1) as nat);
        assert(spec_pow10((b - 1) as nat) >= 1) by {
            lemma_pow10_pos((b - 1) as nat);
        }
    }
}

/// Powers of ten are at least one.
proof fn lemma_pow10_pos(k: nat)
    ensures
        spec_pow10(k) >= 1,
    decreases k,
{
    if k > 0 {
        lemma_pow10_pos((k - 1) as nat);
    }
}

/// A string of `k` ASCII digits denotes a value below `10^k`.
pub proof fn lemma_digits_val_bound(d: Seq<u8>)
    requires
        spec_all_digits(d),
    ensures
        0 <= spec_digits_val(d) < spec_pow10(d.len()),
    decreases d.len(),
{
    if d.len() > 0 {
        assert(spec_all_digits(d.take(d.len() - 1)));
        lemma_digits_val_bound(d.take(d.len() - 1));
    }
}

/// The frequency denoted by a note spelling, or `None` when the spelling
/// is rejected: `"-"` is silence; otherwise a pitch class (`"C"`,
/// `"C#"`, `"Db"`, ..., `"B"`) followed by an optional octave number of at
/// most five digits, defaulting to octave 4.
pub open spec fn spec_parse_note_freq(s: Seq<u8>) -> Option<i64> {
    if s =~= seq![45u8] {
        Some(0i64)
    } else {
        let idx = spec_split_idx(s, 0);
        let off = spec_key_offset(s.take(idx));
        if off < 0 {
            None
        } else {
            let d = s.skip(idx);
            if d.len() == 0 {
                Some(spec_key_freq(4 * 12 + off - 10))
            } else if !spec_all_digits(d) || d.len() > 5 {
                None
            } else {
                Some(spec_key_freq(spec_digits_val(d) * 12 + off - 10))
            }
        }
    }
}

/// Scanning over non-digits does not change where the first digit is.
proof fn lemma_split_idx_skip(s: Seq<u8>, i: int)
    requires
        0 <= i <= s.len(),
        forall|j: int| 0 <= j < i ==> !is_digit_byte(#[trigger] s[j]),
    ensures
        spec_split_idx(s, 0) == spec_split_idx(s, i),
    decreases i,
{
    if i > 0 {
        lemma_split_idx_skip(s, i - 1);
    }
}

impl Note {
    /// Parses a note spelling such as `"A4"`, `"C#3"`, `"Bb"` or the
    /// silence sentinel `"-"` into its note.
    pub fn from_str(s: &str) -> (r: Result<Note, ()>)
        ensures
            r is Ok <==> spec_parse_note_freq(s.spec_bytes()) is Some,
            r is Ok ==> r->Ok_0.spec_freq() == spec_parse_note_freq(s.spec_bytes())->Some_0,
    {
        let b: &[u8] = s.as_bytes();
        let n: usize = b.len();
        if n == 1 && *slice_index_get(b, 0) == 45 {
            proof {
                assert(s.spec_bytes() =~= seq![45u8]);
            }
            return Ok(Note(0));
        }
        proof {
            assert(!(s.spec_bytes() =~= seq![45u8]));
        }
        let mut i: usize = 0;
        while i < n && !(48 <= *slice_index_get(b, i) && *slice_index_get(b, i) <= 57)
            invariant
                0 <= i <= n,
                n == b@.len(),
                b@ == s.spec_bytes(),
                forall|j: int| 0 <= j < i ==> !is_digit_byte(#[trigger] b@[j]),
            decreases n - i,
        {
            i = i + 1;
        }
        proof {
            lemma_split_idx_skip(b@, i as int);
            assert(spec_split_idx(b@, 0) == i);
        }
        let off: i64 = if i == 1 {
            let c = *slice_index_get(b, 0);
            proof {
                assert(b@.take(1)[0] == b@[0]);
            }
            if c == 67 {
                1
            } else if c == 68 {
                3
            } else if c == 69 {
                5
            } else if c == 70 {
                6
            } else if c == 71 {
                8
            } else if c == 65 {
                10
            } else if c == 66 {
                12
            } else {
                -1
            }
        } else if i == 2 {
            let c = *slice_index_get(b, 0);
            let d = *slice_index_get(b, 1);
            proof {
                assert(b@.take(2)[0] == b@[0]);
                assert(b@.take(2)[1] == b@[1]);
            }
            if d == 35 {
                if c == 67 {
                    2
                } else if c == 68 {
                    4
                } else if c == 70 {
                    7
                } else if c == 71 {
                    9
                } else if c == 65 {
                    11
                } else {
                    -1
                }
            } else if d == 98 {
                if c == 68 {
                    2
                } else if c == 69 {
                    4
                } else if c == 71 {
                    7
                } else if c == 65 {
                    9
                } else if c == 66 {
                    11
                } else {
                    -1
                }
            } else {
                -1
            }
        } else {
            -1
        };
        proof {
            assert(off == spec_key_offset(b@.take(i as int)));
        }
        if off < 0 {
            return Err(());
        }
        let octave: i64 = if i == n {
            proof {
                assert(b@.skip(i as int).len() == 0);
            }
            4
        } else {
            if n - i > 5 {
                return Err(());
            }
            let mut val: i64 = 0;
            let mut jj: usize = i;
            while jj < n
                invariant
                    i <= jj <= n,
                    i < n,
                    n == b@.len(),
                    b@ == s.spec_bytes(),
                    !(s.spec_bytes() =~= seq![45u8]),
                    spec_split_idx(b@, 0) == i as int,
                    off == spec_key_offset(b@.take(i as int)),
                    0 <= off,
                    n - i <= 5,
                    0 <= val,
                    val < spec_pow10((jj - i) as nat),
                    val == spec_digits_val(b@.subrange(i as int, jj as int)),
                    forall|j: int| i <= j < jj ==> is_digit_byte(#[trigger] b@[j]),
                decreases n - jj,
            {
                let d = *slice_index_get(b, jj);
                if !(48 <= d && d <= 57) {
                    proof {
                        let sb = s.spec_bytes();
                        assert(sb == b@);
                        let idx = spec_split_idx(sb, 0);
                        assert(idx == i as int);
                        let d_seq = sb.skip(idx);
                        assert(d_seq =~= b@.subrange(i as int, n as int));
                        assert(d_seq[jj - i] == b@[jj as int]);
                        assert(!is_digit_byte(d_seq[jj - i]));
                        assert(!spec_all_digits(d_seq));
                        assert(spec_key_offset(sb.take(idx)) == off);
                        assert(d_seq.len() > 0);
                        assert(spec_parse_note_freq(sb) is None);
                    }
                    return Err(());
                }
                proof {
                    assert(spec_pow10((jj - i) as nat) <= spec_pow10(4)) by {
                        lemma_pow10_mono((jj - i) as nat, 4);
                    }
                    assert(spec_pow10(0) == 1);
                    assert(spec_pow10(1) == 10);
                    assert(spec_pow10(2) == 100);
                    assert(spec_pow10(3) == 1000);
                    assert(spec_pow10(4) == 10000);
                    assert(spec_pow10(5) == 100000);
                    assert(b@.subrange(i as int, jj + 1).take(jj - i) =~= b@.subrange(
                        i as int,
                        jj as int,
                    ));
                    assert(b@.subrange(i as int, jj + 1)[jj - i] == b@[jj as int]);
                }
                val = val * 10 + ((d - 48) as i64);
                jj = jj + 1;
            }
            proof {
                assert(b@.subrange(i as int, n as int) =~= b@.skip(i as int));
                assert(spec_all_digits(b@.skip(i as int)));
                lemma_pow10_mono((n - i) as nat, 5);
                assert(spec_pow10(0) == 1);
                assert(spec_pow10(1) == 10);
                assert(spec_pow10(2) == 100);
                assert(spec_pow10(3) == 1000);
                assert(spec_pow10(4) == 10000);
                assert(spec_pow10(5) == 100000);
            }
            val
        };
        let key: i64 = octave * 12 + off - 10;
        Ok(Note::from_key(key as i32))
    }
}

/// The tuning anchor is exact: key 48 (A4) sounds at exactly 440 Hz,
/// and key 36 (A3), one octave down, at exactly 220 Hz.
pub proof fn lemma_reference_pitch()
    ensures
        spec_key_freq(48) == 440 * SCALE,
        spec_key_freq(36) == 220 * SCALE,
{
    vstd::arithmetic::div_mod::lemma_div_multiples_vanish(A4_FREQ as int, SCALE as int);
    assert(A4_FREQ as int * spec_ratio(0) == SCALE as int * A4_FREQ as int) by (nonlinear_arith)
        requires
            A4_FREQ == 1889785610240i64,
            spec_ratio(0) == 4294967296,
            SCALE == 4294967296i64,
    ;
    assert((A4_FREQ as int * spec_ratio(0)) / (SCALE as int) == A4_FREQ as int);
    assert((48 - 48) % 12 == 0 && (48 - 48) / 12 == 0);
    assert((36 - 48) % 12 == 0 && (36 - 48) / 12 == -1);
    assert(spec_key_freq(48) == spec_scale_up(A4_FREQ as int, 0));
    assert(spec_scale_up(A4_FREQ as int, 0) == clamp_i64(A4_FREQ as int));
    assert(spec_key_freq(36) == spec_scale_down(A4_FREQ as int, 1) as i64);
    assert(spec_scale_down(A4_FREQ as int / 2, 0) == A4_FREQ as int / 2);
    assert(spec_scale_down(A4_FREQ as int, 1) == A4_FREQ as int / 2);
    assert(A4_FREQ as int / 2 == 220 * (SCALE as int));
}

} // verus!
