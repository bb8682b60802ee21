use std::str::FromStr;

use harmonicon::blocks::oscillator::Waveform;
use harmonicon::blocks::{Block, BlockType};
use harmonicon::driver::HarmoniconDriver;
use harmonicon::error::HarmoniconError;
use harmonicon::parse::{
    parse_stage2, AssignRhs, InitValue, Instruction, Prop, PropValue,
};
use harmonicon::SCALE;

fn anon_const(v: i64) -> PropValue {
    PropValue::Anonymous(BlockType::Constant, InitValue::Number(v))
}

fn assign(bt: BlockType, name: &str, props: Vec<Prop>) -> Instruction {
    Instruction::Assign(bt, name.to_string(), AssignRhs::Init(InitValue::Props(props)))
}

fn prop(key: &str, value: PropValue) -> Prop {
    Prop { key: key.to_string(), value }
}

#[test]
fn compiles_an_oscillator_with_frequency() {
    let instrs = vec![assign(
        BlockType::Oscillator,
        "o",
        vec![
            prop("freq", anon_const(440 * SCALE)),
            prop("wave", PropValue::Wave(Waveform::Square)),
        ],
    )];
    let d = parse_stage2(instrs).unwrap();
    let id = d.get_block("o").unwrap();
    match &d.arena[id].block {
        Block::Oscillator(b) => {
            assert!(matches!(b.wave, Waveform::Square));
            assert_eq!(b.phase, 0);
        },
        _ => panic!("expected an oscillator"),
    }
    // the last defined block becomes the output
    assert_eq!(d.output, id);
}

#[test]
fn unknown_property_carries_key_and_variant() {
    let instrs = vec![assign(
        BlockType::Oscillator,
        "o",
        vec![prop("frequencyy", anon_const(440 * SCALE))],
    )];
    match parse_stage2(instrs) {
        Err(HarmoniconError::UnknownProperty(key, variant)) => {
            assert_eq!(key, "frequencyy");
            assert_eq!(variant, "oscillator");
        },
        other => panic!("expected UnknownProperty, got {other:?}"),
    }
}

#[test]
fn unknown_property_per_variant() {
    for (bt, variant) in [
        (BlockType::Amplifier, "amplifier"),
        (BlockType::Stereo, "stereo"),
        (BlockType::Sequencer, "sequencer"),
    ] {
        let instrs = vec![assign(bt, "x", vec![prop("nope", anon_const(0))])];
        match parse_stage2(instrs) {
            Err(HarmoniconError::UnknownProperty(key, v)) => {
                assert_eq!(key, "nope");
                assert_eq!(v, variant);
            },
            other => panic!("expected UnknownProperty, got {other:?}"),
        }
    }
}

#[test]
fn unknown_block_reference() {
    let instrs = vec![assign(
        BlockType::Oscillator,
        "o",
        vec![prop("freq", PropValue::Reference("ghostly".to_string()))],
    )];
    match parse_stage2(instrs) {
        Err(HarmoniconError::UnknownBlock(name)) => assert_eq!(name, "ghostly"),
        other => panic!("expected UnknownBlock, got {other:?}"),
    }
}

#[test]
fn unknown_output_name() {
    let instrs = vec![
        assign(BlockType::Oscillator, "o", vec![]),
        Instruction::Output("missing".to_string()),
    ];
    match parse_stage2(instrs) {
        Err(HarmoniconError::UnknownOutput(name)) => assert_eq!(name, "missing"),
        other => panic!("expected UnknownOutput, got {other:?}"),
    }
}

#[test]
fn type_error_on_wrong_initializer() {
    let instrs = vec![Instruction::Assign(
        BlockType::Oscillator,
        "o".to_string(),
        AssignRhs::Init(InitValue::Number(42)),
    )];
    match parse_stage2(instrs) {
        Err(HarmoniconError::TypeError(want, got)) => {
            assert_eq!(want, "oscillator initializer");
            assert_eq!(got, "other initializer");
        },
        other => panic!("expected TypeError, got {other:?}"),
    }
}

#[test]
fn explicit_output_wins() {
    let instrs = vec![
        assign(BlockType::Constant, "a", vec![]),
        assign(BlockType::Constant, "b", vec![]),
        Instruction::Output("a".to_string()),
    ];
    // constants take a bare-number initializer, not a body
    let instrs: Vec<Instruction> = instrs
        .into_iter()
        .map(|i| match i {
            Instruction::Assign(BlockType::Constant, n, _) => Instruction::Assign(
                BlockType::Constant,
                n,
                AssignRhs::Init(InitValue::Number(7 * SCALE)),
            ),
            other => other,
        })
        .collect();
    let d = parse_stage2(instrs).unwrap();
    assert_eq!(d.output, d.get_block("a").unwrap());
}

#[test]
fn aliases_share_the_block() {
    let instrs = vec![
        Instruction::Assign(
            BlockType::Constant,
            "a".to_string(),
            AssignRhs::Init(InitValue::Number(3 * SCALE)),
        ),
        Instruction::Assign(
            BlockType::Constant,
            "b".to_string(),
            AssignRhs::Alias("a".to_string()),
        ),
    ];
    let d = parse_stage2(instrs).unwrap();
    assert_eq!(d.get_block("a").unwrap(), d.get_block("b").unwrap());
}

#[test]
fn alias_of_missing_name_fails() {
    let instrs = vec![Instruction::Assign(
        BlockType::Constant,
        "b".to_string(),
        AssignRhs::Alias("nothing".to_string()),
    )];
    match parse_stage2(instrs) {
        Err(HarmoniconError::UnknownBlock(name)) => assert_eq!(name, "nothing"),
        other => panic!("expected UnknownBlock, got {other:?}"),
    }
}

#[test]
fn amplifier_pads_missing_pairs() {
    // setting source2 first auto-fills pairs 0 and 1 with silence at
    // unit gain; with silent pads the mix equals source2 alone
    let instrs = vec![assign(
        BlockType::Amplifier,
        "m",
        vec![prop("source2", anon_const(5 * SCALE))],
    )];
    let d = parse_stage2(instrs).unwrap();
    let id = d.get_block("m").unwrap();
    match &d.arena[id].block {
        Block::Amplifier(b) => assert_eq!(b.sources.len(), 3),
        _ => panic!("expected an amplifier"),
    }
    let v = harmonicon::blocks::get_channel(&d.arena, id, harmonicon::blocks::Channel::Mono);
    assert_eq!(v, 5 * SCALE);
}

#[test]
fn amplifier_gain_key_spellings() {
    // "amp{N}" works; the longer "amplify{N}" spelling is never
    // accepted (its prefix handling is kept as the grammar always
    // treated it)
    let good = vec![assign(
        BlockType::Amplifier,
        "m",
        vec![
            prop("src0", anon_const(3 * SCALE)),
            prop("amp0", anon_const(2 * SCALE)),
        ],
    )];
    let d = parse_stage2(good).unwrap();
    let id = d.get_block("m").unwrap();
    let v = harmonicon::blocks::get_channel(&d.arena, id, harmonicon::blocks::Channel::Mono);
    assert_eq!(v, 6 * SCALE);

    let bad = vec![assign(
        BlockType::Amplifier,
        "m",
        vec![prop("amplify0", anon_const(2 * SCALE))],
    )];
    assert!(matches!(
        parse_stage2(bad),
        Err(HarmoniconError::UnknownProperty(_, _))
    ));
}

#[test]
fn sequencer_takes_note_spellings() {
    let instrs = vec![assign(
        BlockType::Sequencer,
        "s",
        vec![prop(
            "seq",
            PropValue::Notes(vec!["A".to_string(), "D".to_string(), "E".to_string()]),
        )],
    )];
    let d = parse_stage2(instrs).unwrap();
    let id = d.get_block("s").unwrap();
    match &d.arena[id].block {
        Block::Sequencer(b) => {
            assert_eq!(b.sequence.len(), 3);
            assert_eq!(b.sequence[0].frequency(), 440 * SCALE);
            assert_eq!(b.progress, 0);
        },
        _ => panic!("expected a sequencer"),
    }
}

#[test]
fn bad_note_spelling_fails_the_sequence() {
    let instrs = vec![assign(
        BlockType::Sequencer,
        "s",
        vec![prop("seq", PropValue::Notes(vec!["A".to_string(), "X".to_string()]))],
    )];
    assert!(matches!(parse_stage2(instrs), Err(HarmoniconError::TypeError(_, _))));
}

#[test]
fn empty_program_plays_silence() {
    let d = parse_stage2(Vec::new()).unwrap();
    let mut d = d;
    assert_eq!(d.next_sample(None), 0);
    assert_eq!(d.next_sample(None), 0);
}

#[test]
fn block_type_spellings() {
    assert_eq!(BlockType::from_str("osc").unwrap(), BlockType::Oscillator);
    assert_eq!(BlockType::from_str("oscillator").unwrap(), BlockType::Oscillator);
    assert_eq!(BlockType::from_str("const").unwrap(), BlockType::Constant);
    assert_eq!(BlockType::from_str("amp").unwrap(), BlockType::Amplifier);
    assert_eq!(BlockType::from_str("stereo").unwrap(), BlockType::Stereo);
    assert_eq!(BlockType::from_str("seq").unwrap(), BlockType::Sequencer);
    assert!(BlockType::from_str("warble").is_err());
}
