use harmonicon::blocks::oscillator::Waveform;
use harmonicon::blocks::{Block, BlockType};
use harmonicon::driver::HarmoniconDriver;
use harmonicon::parse::{
    parse_stage2, AssignRhs, InitValue, Instruction, Prop, PropValue,
};
use harmonicon::SCALE;

fn osc_graph(name: &str, hz: i64) -> Vec<Instruction> {
    vec![Instruction::Assign(
        BlockType::Oscillator,
        name.to_string(),
        AssignRhs::Init(InitValue::Props(vec![Prop {
            key: "freq".to_string(),
            value: PropValue::Anonymous(BlockType::Constant, InitValue::Number(hz)),
        }])),
    )]
}

fn phase_of(d: &HarmoniconDriver, name: &str) -> i64 {
    let id = d.get_block(name).unwrap();
    match &d.arena[id].block {
        Block::Oscillator(b) => b.phase,
        _ => panic!("{name} is not an oscillator"),
    }
}

#[test]
fn reload_preserves_oscillator_phase() {
    let mut d = parse_stage2(osc_graph("o", 440 * SCALE)).unwrap();
    for _ in 0..1000 {
        d.next_sample(None);
        d.next_sample(None);
    }
    let p = phase_of(&d, "o");
    assert!(p != 0);
    let b = parse_stage2(osc_graph("o", 880 * SCALE)).unwrap();
    d.update(b);
    assert_eq!(phase_of(&d, "o"), p);
}

#[test]
fn reload_through_the_sample_stream() {
    let mut d = parse_stage2(osc_graph("o", 440 * SCALE)).unwrap();
    for _ in 0..100 {
        d.next_sample(None);
        d.next_sample(None);
    }
    let p = phase_of(&d, "o");
    let b = parse_stage2(osc_graph("o", 880 * SCALE)).unwrap();
    assert!(!d.has_pending());
    d.next_sample(Some(b));
    // the swapped-in oscillator continued from the old phase and was
    // then stepped once
    let after = phase_of(&d, "o");
    let want = (p + (880 * SCALE) / 44100) % SCALE;
    assert_eq!(after, want);
}

#[test]
fn reload_type_change_keeps_fresh_state() {
    let mut d = parse_stage2(osc_graph("o", 440 * SCALE)).unwrap();
    for _ in 0..500 {
        d.next_sample(None);
        d.next_sample(None);
    }
    let b = parse_stage2(vec![Instruction::Assign(
        BlockType::Constant,
        "o".to_string(),
        AssignRhs::Init(InitValue::Number(3 * SCALE)),
    )])
    .unwrap();
    d.update(b);
    let id = d.get_block("o").unwrap();
    match &d.arena[id].block {
        Block::Constant(c) => assert_eq!(c.val, 3 * SCALE),
        _ => panic!("expected a constant"),
    }
}

#[test]
fn reload_carries_sequencer_progress() {
    let seq_graph = |bpm: i64| {
        vec![Instruction::Assign(
            BlockType::Sequencer,
            "s".to_string(),
            AssignRhs::Init(InitValue::Props(vec![
                Prop {
                    key: "seq".to_string(),
                    value: PropValue::Notes(vec!["A".to_string(), "D".to_string()]),
                },
                Prop {
                    key: "bpm".to_string(),
                    value: PropValue::Anonymous(BlockType::Constant, InitValue::Number(bpm)),
                },
            ])),
        )]
    };
    let mut d = parse_stage2(seq_graph(120 * SCALE)).unwrap();
    for _ in 0..2000 {
        d.next_sample(None);
        d.next_sample(None);
    }
    let id = d.get_block("s").unwrap();
    let p = match &d.arena[id].block {
        Block::Sequencer(b) => b.progress,
        _ => panic!(),
    };
    assert!(p > 0);
    let b = parse_stage2(seq_graph(90 * SCALE)).unwrap();
    d.update(b);
    let id2 = d.get_block("s").unwrap();
    match &d.arena[id2].block {
        Block::Sequencer(b) => assert_eq!(b.progress, p),
        _ => panic!(),
    }
}

#[test]
fn sequencer_progress_wraps_at_the_length() {
    // three notes at bpm 120 and 44100 Hz: 3 beats take 66150 ticks
    let instrs = vec![Instruction::Assign(
        BlockType::Sequencer,
        "s".to_string(),
        AssignRhs::Init(InitValue::Props(vec![
            Prop {
                key: "seq".to_string(),
                value: PropValue::Notes(vec![
                    "A".to_string(),
                    "D".to_string(),
                    "E".to_string(),
                ]),
            },
            Prop {
                key: "bpm".to_string(),
                value: PropValue::Anonymous(
                    BlockType::Constant,
                    InitValue::Number(120 * SCALE),
                ),
            },
            Prop {
                key: "spacing".to_string(),
                value: PropValue::Anonymous(BlockType::Constant, InitValue::Number(0)),
            },
        ])),
    )];
    let mut d = parse_stage2(instrs).unwrap();
    let id = d.get_block("s").unwrap();
    let mut max_progress: i64 = 0;
    for _ in 0..70000 {
        d.next_sample(None);
        d.next_sample(None);
        let p = match &d.arena[id].block {
            Block::Sequencer(b) => b.progress,
            _ => panic!(),
        };
        max_progress = max_progress.max(p);
        // the counter never runs past the sequence length by more
        // than one tick's advance before wrapping
        assert!(p <= 3 * SCALE + SCALE / 1000);
    }
    // it did cross the end and wrap
    assert!(max_progress > 2 * SCALE);
    let p_final = match &d.arena[id].block {
        Block::Sequencer(b) => b.progress,
        _ => panic!(),
    };
    assert!(p_final < 3 * SCALE);
}

#[test]
fn default_waveform_is_sine() {
    let d = parse_stage2(osc_graph("o", 440 * SCALE)).unwrap();
    let id = d.get_block("o").unwrap();
    match &d.arena[id].block {
        Block::Oscillator(b) => assert!(matches!(b.wave, Waveform::Sinus)),
        _ => panic!(),
    }
}
