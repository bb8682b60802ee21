use harmonicon::note::Note;
use harmonicon::SCALE;

#[test]
fn reference_pitch_is_exact() {
    let a4 = Note::from_str("A4").unwrap();
    assert_eq!(a4.frequency(), 440 * SCALE);
    let a3 = Note::from_str("A3").unwrap();
    assert_eq!(a3.frequency(), 220 * SCALE);
}

#[test]
fn octave_defaults_to_four() {
    let a = Note::from_str("A").unwrap();
    let a4 = Note::from_str("A4").unwrap();
    assert_eq!(a.frequency(), a4.frequency());
}

#[test]
fn silent_note_is_zero() {
    let s = Note::from_str("-").unwrap();
    assert_eq!(s.frequency(), 0);
    assert_eq!(Note::silent().frequency(), 0);
}

#[test]
fn accidentals_and_flats_agree() {
    let cs = Note::from_str("C#4").unwrap();
    let db = Note::from_str("Db4").unwrap();
    assert_eq!(cs.frequency(), db.frequency());
    let gs = Note::from_str("G#2").unwrap();
    let ab = Note::from_str("Ab2").unwrap();
    assert_eq!(gs.frequency(), ab.frequency());
}

#[test]
fn equal_temperament_is_close_to_real() {
    // D4 at 440 * 2^(-7/12) Hz, within a part per million
    let d4 = Note::from_str("D4").unwrap();
    let got = d4.frequency() as f64 / SCALE as f64;
    let want = 440.0_f64 * 2.0_f64.powf(-7.0 / 12.0);
    assert!((got - want).abs() / want < 1e-6, "got {got}, want {want}");
}

#[test]
fn octave_doubles_frequency() {
    let e3 = Note::from_str("E3").unwrap();
    let e4 = Note::from_str("E4").unwrap();
    assert_eq!(e4.frequency(), 2 * e3.frequency());
}

#[test]
fn unknown_spellings_are_rejected() {
    assert!(Note::from_str("H4").is_err());
    assert!(Note::from_str("").is_err());
    assert!(Note::from_str("A4x").is_err());
    assert!(Note::from_str("Axx").is_err());
    assert!(Note::from_str("A999999").is_err());
}

#[test]
fn from_key_anchors() {
    assert_eq!(Note::from_key(48).frequency(), 440 * SCALE);
    assert_eq!(Note::from_key(36).frequency(), 220 * SCALE);
    assert_eq!(Note::from_key(60).frequency(), 880 * SCALE);
}
