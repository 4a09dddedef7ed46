use rosolio::{Note, NoteParseError, PitchLetter};

#[test]
fn test_display() {
    let note = Note::new("C", 0, 0, 0).unwrap();
    assert_eq!(note.to_string(), "C".to_string());
    assert_eq!(note.pitch(), 12);
    let note = Note::new("C", 0, 1, 0).unwrap();
    assert_eq!(note.to_string(), "C".to_string());
    assert_eq!(note.pitch(), 24);
    assert_eq!(Note::new("C", 1, 3, 0).unwrap().to_string(), "C♯3".to_string());
}

#[test]
fn canonical_text_of_sharp_note() {
    assert_eq!(Note::new("C", 1, 3, 0).unwrap().to_string(), "C♯3".to_string());
}

#[test]
fn sharp_text_reads_back() {
    let note = Note::parse("C♯3").unwrap();
    assert_eq!(note.pitch(), 49);
}

#[test]
fn new_rejects_names_that_are_not_letters() {
    assert_eq!(Note::new("H", 0, 0, 0), Err(NoteParseError::InvalidLetter));
    assert_eq!(Note::new("", 0, 0, 0), Err(NoteParseError::InvalidLetter));
    assert_eq!(Note::new("CC", 0, 0, 0), Err(NoteParseError::InvalidLetter));
    assert_eq!(Note::new("e", 0, 0, 0).unwrap().letter, PitchLetter::E);
}

#[test]
fn build_from_fields() {
    let n = Note::build('g', "♯𝄪", Some(4), None).unwrap();
    assert_eq!(n, Note { letter: PitchLetter::G, accidental: 3, octave: 4, cents: 0 });
    let n = Note::build('A', "", None, Some(-30)).unwrap();
    assert_eq!(n, Note { letter: PitchLetter::A, accidental: 0, octave: 0, cents: -30 });
    assert_eq!(Note::build('X', "#", None, None), Err(NoteParseError::InvalidLetter));
    assert_eq!(Note::build('C', "#x#", None, None), Err(NoteParseError::InvalidAccidental(1)));
    let many = "#".repeat(200);
    assert_eq!(Note::build('C', &many, None, None).unwrap().accidental, 200);
}

#[test]
fn semitone_table() {
    let expected = [("C", 0), ("D", 2), ("E", 4), ("F", 5), ("G", 7), ("A", 9), ("B", 11)];
    for (name, semitone) in expected {
        let n = Note::new(name, 0, -1, 0).unwrap();
        assert_eq!(n.pitch(), semitone);
        assert_eq!(n.letter.semitone() as i128, semitone);
    }
}

#[test]
fn cents_round_half_away_from_zero() {
    let at = |cents: i8| Note { letter: PitchLetter::C, accidental: 0, octave: 3, cents }.pitch();
    assert_eq!(at(0), 48);
    assert_eq!(at(49), 48);
    assert_eq!(at(50), 49);
    assert_eq!(at(127), 49);
    assert_eq!(at(-49), 48);
    assert_eq!(at(-50), 47);
    assert_eq!(at(-128), 47);
}

#[test]
fn fractional_pitch_in_hundredths() {
    let n = Note::parse("C#3+12").unwrap();
    assert_eq!(n.pitch_cents(), Some(4912));
    let n = Note::parse("C3-75").unwrap();
    assert_eq!(n.pitch_cents(), Some(4725));
    assert_eq!(n.pitch(), 47);
}

#[test]
fn wide_range_pitch() {
    let n = Note { letter: PitchLetter::B, accidental: 127, octave: 127, cents: 127 };
    assert_eq!(n.pitch(), 12 * 128 + 11 + 127 + 1);
    let n = Note { letter: PitchLetter::C, accidental: -128, octave: -128, cents: -128 };
    assert_eq!(n.pitch(), 12 * -127 - 128 - 1);
    let n = Note { letter: PitchLetter::C, accidental: i128::MAX, octave: 0, cents: 0 };
    assert_eq!(n.pitch_cents(), None);
    let n = Note { letter: PitchLetter::C, accidental: i128::MIN, octave: 0, cents: 0 };
    assert_eq!(n.pitch_cents(), None);
    let n = Note { letter: PitchLetter::C, accidental: i128::MAX / 100 - 12, octave: 0, cents: 0 };
    assert_eq!(n.pitch_cents(), Some((i128::MAX / 100) * 100));
    let low = -(i128::MAX / 100) - 12;
    let n = Note { letter: PitchLetter::C, accidental: low, octave: 0, cents: -28 };
    assert_eq!(n.pitch_cents(), Some(i128::MIN));
    let n = Note { letter: PitchLetter::C, accidental: low, octave: 0, cents: -29 };
    assert_eq!(n.pitch_cents(), None);
}
