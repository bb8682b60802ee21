use harmonicon::blocks::amplifier::AmplifierBlock;
use harmonicon::blocks::constant::ConstantBlock;
use harmonicon::blocks::oscillator::{waveform_value, OscillatorBlock, Waveform};
use harmonicon::blocks::sequencer::seq_value;
use harmonicon::blocks::{get_channel, Block, Channel, Node, SignalSource};
use harmonicon::driver::HarmoniconDriver;
use harmonicon::fixed::{mul_fp, sat_add};
use harmonicon::note::Note;
use harmonicon::{HALF_SCALE, SCALE};

fn q(x: f64) -> i64 {
    (x * SCALE as f64) as i64
}

/// One tick of the engine is one left sample followed by one buffered
/// right sample.
fn tick(d: &mut HarmoniconDriver) -> (i64, i64) {
    let l = d.next_sample(None);
    let r = d.next_sample(None);
    (l, r)
}

fn osc_named(d: &mut HarmoniconDriver, name: &str, hz: i64, wave: Waveform) -> usize {
    let f = d.create_block(Block::Constant(ConstantBlock::new(hz)));
    let osc = OscillatorBlock {
        freq_source: SignalSource::Anonymous(f),
        phase: 0,
        wave,
    };
    d.register_block(name.to_string(), Block::Oscillator(osc))
}

#[test]
fn at_most_once_stepping() {
    let mut d = HarmoniconDriver::new();
    let o = osc_named(&mut d, "o", 440 * SCALE, Waveform::Sinus);
    let freq_id = o - 1;
    d.set_output(o);
    let n = 25;
    for _ in 0..n {
        tick(&mut d);
    }
    // the named oscillator and its owned frequency source were each
    // advanced exactly once per tick; the unreferenced default output
    // block was never advanced
    assert_eq!(d.arena[o].steps, n);
    assert_eq!(d.arena[freq_id].steps, n);
    assert_eq!(d.arena[0].steps, 0);
}

#[test]
fn alias_does_not_double_step() {
    let mut d = HarmoniconDriver::new();
    let o = osc_named(&mut d, "o", 440 * SCALE, Waveform::Sinus);
    d.alias_block("o", "p".to_string()).unwrap();
    d.set_output(o);
    for _ in 0..10 {
        tick(&mut d);
    }
    assert_eq!(d.arena[o].steps, 10);
}

#[test]
fn oscillator_phase_stays_wrapped() {
    let mut d = HarmoniconDriver::new();
    let o = osc_named(&mut d, "o", q(12345.6), Waveform::Sinus);
    d.set_output(o);
    for _ in 0..2000 {
        tick(&mut d);
        match &d.arena[o].block {
            Block::Oscillator(b) => assert!(0 <= b.phase && b.phase < SCALE),
            _ => panic!("not an oscillator"),
        }
    }
}

#[test]
fn sine_matches_the_real_sine() {
    for k in 0..1000 {
        let phase = (SCALE / 1000) * k;
        let got = waveform_value(Waveform::Sinus, phase) as f64 / SCALE as f64;
        let x = phase as f64 / SCALE as f64;
        let want = (2.0 * std::f64::consts::PI * x).sin();
        assert!((got - want).abs() < 2e-3, "phase {x}: got {got}, want {want}");
    }
}

#[test]
fn waveform_shapes() {
    assert_eq!(waveform_value(Waveform::Sawtooth, 0), SCALE);
    assert_eq!(waveform_value(Waveform::Sawtooth, HALF_SCALE), SCALE - HALF_SCALE);
    assert_eq!(waveform_value(Waveform::Square, 0), SCALE);
    assert_eq!(waveform_value(Waveform::Square, HALF_SCALE - 1), SCALE);
    assert_eq!(waveform_value(Waveform::Square, HALF_SCALE), 0);
    assert_eq!(waveform_value(Waveform::Triangle, SCALE / 4), HALF_SCALE);
    assert_eq!(waveform_value(Waveform::Triangle, HALF_SCALE), SCALE);
    assert_eq!(waveform_value(Waveform::Triangle, 3 * (SCALE / 4)), HALF_SCALE);
}

#[test]
fn amplifier_identity() {
    // an amplifier with one pair (X, constant 1.0) outputs exactly X
    let mut d = HarmoniconDriver::new();
    for x in [0i64, 1, -1, q(0.25), q(-123.75), 7 * SCALE] {
        let xs = d.create_block(Block::Constant(ConstantBlock::new(x)));
        let gain = d.create_block(Block::Constant(ConstantBlock::new(SCALE)));
        let amp = AmplifierBlock {
            sources: vec![(SignalSource::Anonymous(xs), SignalSource::Anonymous(gain))],
        };
        let id = d.register_block(format!("a{x}"), Block::Amplifier(amp));
        assert_eq!(get_channel(&d.arena, id, Channel::Mono), x);
        assert_eq!(get_channel(&d.arena, id, Channel::Left), x);
        assert_eq!(get_channel(&d.arena, id, Channel::Right), x);
    }
}

#[test]
fn amplifier_sums_pairs() {
    let mut d = HarmoniconDriver::new();
    let a = d.create_block(Block::Constant(ConstantBlock::new(q(2.0))));
    let ga = d.create_block(Block::Constant(ConstantBlock::new(q(0.5))));
    let b = d.create_block(Block::Constant(ConstantBlock::new(q(3.0))));
    let gb = d.create_block(Block::Constant(ConstantBlock::new(q(2.0))));
    let amp = AmplifierBlock {
        sources: vec![
            (SignalSource::Anonymous(a), SignalSource::Anonymous(ga)),
            (SignalSource::Anonymous(b), SignalSource::Anonymous(gb)),
        ],
    };
    let id = d.register_block("m".to_string(), Block::Amplifier(amp));
    // 2.0 * 0.5 + 3.0 * 2.0 = 7.0
    assert_eq!(get_channel(&d.arena, id, Channel::Mono), q(7.0));
}

#[test]
fn saturating_arithmetic() {
    assert_eq!(sat_add(i64::MAX, 1), i64::MAX);
    assert_eq!(sat_add(i64::MIN, -1), i64::MIN);
    assert_eq!(sat_add(5, 6), 11);
    assert_eq!(mul_fp(q(3.0), q(4.0)), q(12.0));
    assert_eq!(mul_fp(q(-3.0), q(4.0)), q(-12.0));
    assert_eq!(mul_fp(7 * SCALE, SCALE), 7 * SCALE);
    assert_eq!(mul_fp(i64::MAX, 4 * SCALE), i64::MAX);
}

#[test]
fn stereo_pan_splits_the_left_source() {
    let mut d = HarmoniconDriver::new();
    let l = d.create_block(Block::Constant(ConstantBlock::new(q(1.0))));
    let r = d.create_block(Block::Constant(ConstantBlock::new(q(0.5))));
    // centered: shift 0 -> both channels at half of the left source
    let s = d.create_block(Block::Constant(ConstantBlock::new(0)));
    let st = harmonicon::blocks::stereo::StereoBlock {
        left: SignalSource::Anonymous(l),
        right: SignalSource::Anonymous(r),
        shift: SignalSource::Anonymous(s),
    };
    let id = d.register_block("st".to_string(), Block::Stereo(st));
    assert_eq!(get_channel(&d.arena, id, Channel::Mono), q(1.25));
    assert_eq!(get_channel(&d.arena, id, Channel::Left), q(0.5));
    assert_eq!(get_channel(&d.arena, id, Channel::Right), q(0.5));
}

#[test]
fn sequencer_indexing_and_gating() {
    let notes: Vec<Note> = vec![
        Note::from_str("A").unwrap(),
        Note::from_str("D").unwrap(),
        Note::from_str("E").unwrap(),
    ];
    // progress exactly 1.5 beats, spacing 0: note index 1 sounds
    let p = SCALE + HALF_SCALE;
    assert_eq!(seq_value(&notes, p, 0), Note::from_str("D").unwrap().frequency());
    // progress 0.2: note index 0
    assert_eq!(seq_value(&notes, q(0.2), 0), Note::from_str("A").unwrap().frequency());
    // wide spacing gates the boundary region to silence
    assert_eq!(seq_value(&notes, q(1.01), q(0.2)), 0);
    // spacing below the threshold does not gate
    assert_eq!(seq_value(&notes, q(1.01), q(0.04)), Note::from_str("D").unwrap().frequency());
    // empty sequences are silent
    let empty: Vec<Note> = Vec::new();
    assert_eq!(seq_value(&empty, p, 0), 0);
}

#[test]
fn oscillator_advances_by_frequency_over_rate() {
    let mut d = HarmoniconDriver::new();
    let o = osc_named(&mut d, "o", 441 * SCALE, Waveform::Sawtooth);
    d.set_output(o);
    tick(&mut d);
    let phase = match &d.arena[o].block {
        Block::Oscillator(b) => b.phase,
        _ => panic!(),
    };
    // one tick advances by 441/44100 = 0.01 of a cycle
    let want = (441 * SCALE) / 44100;
    assert_eq!(phase, want);
}

#[test]
fn output_pull_is_interleaved() {
    let mut d = HarmoniconDriver::new();
    let c = d.register_block("c".to_string(), Block::Constant(ConstantBlock::new(q(0.25))));
    d.set_output(c);
    let (l, r) = tick(&mut d);
    assert_eq!(l, q(0.25));
    assert_eq!(r, q(0.25));
}
