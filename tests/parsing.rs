use rosolio::{Note, NoteNom, NoteParseError, NotePest, NoteRegex, PitchLetter};

#[test]
fn by_nom_nom_parse_test() {
    let v = NoteNom::parse("C").unwrap();
    assert_eq!(v.pitch(), 12, "C parsed to: {:?}", v);
    let v = NoteNom::parse("C#3").unwrap();
    assert_eq!(v.pitch(), 49, "C#3 parsed to: {:?}", v);
    let v = NoteNom::parse("f4").unwrap();
    assert_eq!(v.pitch(), 65, "f4 parsed to: {:?}", v);
    let v = NoteNom::parse("Bb-1").unwrap();
    assert_eq!(v.pitch(), 10, "Bb-1 parsed to: {:?}", v);
    let v = NoteNom::parse("A!8").unwrap();
    assert_eq!(v.pitch(), 116, "A!8 parsed to: {:?}", v);
    let v = NoteNom::parse("G𝄪6").unwrap();
    assert_eq!(v.pitch(), 93, "G𝄪6 parsed to: {:?}", v);
    let v = NoteNom::parse("B𝄫6").unwrap();
    assert_eq!(v.pitch(), 93, "B𝄫6 parsed to: {:?}", v);
    let v = NoteNom::parse("C♭𝄫5").unwrap();
    assert_eq!(v.pitch(), 69, "C♭𝄫5 parsed to: {:?}", v);
}

#[test]
fn pest_parse_test() {
    let v = NotePest::parse("C").unwrap();
    assert_eq!(v.pitch(), 12, "C parsed to: {:?}", v);
    let v = NotePest::parse("C#3").unwrap();
    assert_eq!(v.pitch(), 49, "C#3 parsed to: {:?}", v);
    let v = NotePest::parse("f4").unwrap();
    assert_eq!(v.pitch(), 65, "f4 parsed to: {:?}", v);
    let v = NotePest::parse("Bb-1").unwrap();
    assert_eq!(v.pitch(), 10, "Bb-1 parsed to: {:?}", v);
    let v = NotePest::parse("A!8").unwrap();
    assert_eq!(v.pitch(), 116, "A!8 parsed to: {:?}", v);
    let v = NotePest::parse("G𝄪6").unwrap();
    assert_eq!(v.pitch(), 93, "G𝄪6 parsed to: {:?}", v);
    let v = NotePest::parse("B𝄫6").unwrap();
    assert_eq!(v.pitch(), 93, "B𝄫6 parsed to: {:?}", v);
    let v = NotePest::parse("C♭𝄫5").unwrap();
    assert_eq!(v.pitch(), 69, "C♭𝄫5 parsed to: {:?}", v);
}

#[test]
fn regex_parse_test() {
    let v = NoteRegex::parse("C").unwrap();
    assert_eq!(v.pitch(), 12, "C parsed to: {:?}", v);
    let v = NoteRegex::parse("C#3").unwrap();
    assert_eq!(v.pitch(), 49, "C#3 parsed to: {:?}", v);
    let v = NoteRegex::parse("f4").unwrap();
    assert_eq!(v.pitch(), 65, "f4 parsed to: {:?}", v);
    let v = NoteRegex::parse("Bb-1").unwrap();
    assert_eq!(v.pitch(), 10, "Bb-1 parsed to: {:?}", v);
    let v = NoteRegex::parse("A!8").unwrap();
    assert_eq!(v.pitch(), 116, "A!8 parsed to: {:?}", v);
    let v = NoteRegex::parse("G𝄪6").unwrap();
    assert_eq!(v.pitch(), 93, "G𝄪6 parsed to: {:?}", v);
    let v = NoteRegex::parse("B𝄫6").unwrap();
    assert_eq!(v.pitch(), 93, "B𝄫6 parsed to: {:?}", v);
    let v = NoteRegex::parse("C♭𝄫5").unwrap();
    assert_eq!(v.pitch(), 69, "C♭𝄫5 parsed to: {:?}", v);
}

#[test]
fn note_converter_nom_parse_test() {
    let v: Note = "C".parse().unwrap();
    assert_eq!(v.pitch(), 12, "C parsed to: {:?}", v);
    let v: Note = "C#3".parse().unwrap();
    assert_eq!(v.pitch(), 49, "C#3 parsed to: {:?}", v);
    let v: Note = "C♯3".parse().unwrap();
    assert_eq!(v.pitch(), 49, "C♯3 parsed to: {:?}", v);
    let v: Note = "C♭3".parse().unwrap();
    assert_eq!(v.pitch(), 47, "C♭3 parsed to: {:?}", v);
    let v: Note = "f4".parse().unwrap();
    assert_eq!(v.pitch(), 65, "f4 parsed to: {:?}", v);
    let v: Note = "Bb-1".parse().unwrap();
    assert_eq!(v.pitch(), 10, "Bb-1 parsed to: {:?}", v);
    let v: Note = "A!8".parse().unwrap();
    assert_eq!(v.pitch(), 116, "A!8 parsed to: {:?}", v);
    let v: Note = "G𝄪6".parse().unwrap();
    assert_eq!(v.pitch(), 93, "G𝄪6 parsed to: {:?}", v);
    let v: Note = "B𝄫6".parse().unwrap();
    assert_eq!(v.pitch(), 93, "B𝄫6 parsed to: {:?}", v);
    let v: Note = "C♭𝄫5".parse().unwrap();
    assert_eq!(v.pitch(), 69, "C♭𝄫5 parsed to: {:?}", v);
    let v = "Z♭𝄫5".parse::<Note>().unwrap_err();
    assert_eq!(v, NoteParseError::InvalidLetter);
    let v = "".parse::<Note>().unwrap_err();
    assert_eq!(v, NoteParseError::EmptyInput);
}

#[test]
fn reference_table_through_parse() {
    let table = [
        ("C", 12),
        ("C#3", 49),
        ("C♯3", 49),
        ("C♭3", 47),
        ("f4", 65),
        ("Bb-1", 10),
        ("A!8", 116),
        ("G𝄪6", 93),
        ("B𝄫6", 93),
        ("C♭𝄫5", 69),
    ];
    for (text, pitch) in table {
        assert_eq!(Note::parse(text).unwrap().pitch(), pitch, "{}", text);
    }
}

#[test]
fn parse_fields() {
    let n = Note::parse("c♭𝄫5-20").unwrap();
    assert_eq!(n.letter, PitchLetter::C);
    assert_eq!(n.accidental, -3);
    assert_eq!(n.octave, 5);
    assert_eq!(n.cents, -20);
    let n = Note::parse("B♮+3+7").unwrap();
    assert_eq!(n.letter, PitchLetter::B);
    assert_eq!(n.accidental, 0);
    assert_eq!(n.octave, 3);
    assert_eq!(n.cents, 7);
    let n = Note::parse("bb").unwrap();
    assert_eq!(n.letter, PitchLetter::B);
    assert_eq!(n.accidental, -1);
    assert_eq!(n.octave, 0);
}

#[test]
fn single_integer_run_is_octave() {
    let n = Note::parse("C#3").unwrap();
    assert_eq!(n.octave(), 3);
    assert_eq!(n.cents, 0);
    let n = Note::parse("C-5").unwrap();
    assert_eq!(n.octave(), -5);
    assert_eq!(n.cents, 0);
}

#[test]
fn invalid_letter_kinds() {
    assert_eq!(Note::parse("Z♭𝄫5"), Err(NoteParseError::InvalidLetter));
    assert_eq!(Note::parse("H"), Err(NoteParseError::InvalidLetter));
    assert_eq!(Note::parse("#C"), Err(NoteParseError::InvalidLetter));
    assert_eq!(Note::parse("3"), Err(NoteParseError::InvalidLetter));
}

#[test]
fn empty_input_kind() {
    assert_eq!(Note::parse(""), Err(NoteParseError::EmptyInput));
    assert_eq!(NoteNom::parse(""), Err(NoteParseError::EmptyInput));
}

#[test]
fn invalid_accidental_kind() {
    assert_eq!(Note::parse("Cx3"), Err(NoteParseError::InvalidAccidental(1)));
    assert_eq!(Note::parse("C#?"), Err(NoteParseError::InvalidAccidental(2)));
}

#[test]
fn malformed_octave_and_cents_kinds() {
    assert_eq!(Note::parse("C128"), Err(NoteParseError::MalformedOctave(1)));
    assert_eq!(Note::parse("C#-129"), Err(NoteParseError::MalformedOctave(2)));
    assert_eq!(Note::parse("C#-128").unwrap().octave, -128);
    assert_eq!(Note::parse("C3+128"), Err(NoteParseError::MalformedCents(2)));
    assert_eq!(Note::parse("C3-128").unwrap().cents, -128);
    assert_eq!(Note::parse("C0007").unwrap().octave, 7);
}

#[test]
fn trailing_input_kind() {
    assert_eq!(Note::parse("C+"), Err(NoteParseError::TrailingInput(1)));
    assert_eq!(Note::parse("C3x"), Err(NoteParseError::TrailingInput(2)));
    assert_eq!(Note::parse("C3+5x"), Err(NoteParseError::TrailingInput(4)));
    assert_eq!(Note::parse("C3+5-1"), Err(NoteParseError::TrailingInput(4)));
    assert_eq!(Note::parse("C3#"), Err(NoteParseError::TrailingInput(2)));
}

#[test]
fn from_str_agrees_with_parse() {
    let v: Note = "C-1".parse().unwrap();
    assert_eq!(v.pitch(), 0);
    assert_eq!(v.pitch_cents(), Some(0));
    let v: Note = "C3+50".parse().unwrap();
    assert_eq!(v.pitch(), 49);
    assert_eq!(v.pitch_cents(), Some(4850));
    let v: Note = "C0".parse().unwrap();
    assert_eq!(v.pitch(), "C".parse::<Note>().unwrap().pitch());
    assert_eq!("f4".parse::<Note>().unwrap(), "F4".parse::<Note>().unwrap());
    assert_eq!("f4".parse::<Note>().unwrap().to_string(), "F4");
    assert_eq!("C300".parse::<Note>(), Err(NoteParseError::MalformedOctave(1)));
    assert_eq!("C3+300".parse::<Note>(), Err(NoteParseError::MalformedCents(2)));
    assert_eq!("C#3x".parse::<Note>(), Err(NoteParseError::TrailingInput(3)));
    assert_eq!("C#3+5+5".parse::<Note>(), Err(NoteParseError::TrailingInput(5)));
    assert_eq!("Cx3".parse::<Note>(), Err(NoteParseError::InvalidAccidental(1)));
    assert_eq!("C♯x3".parse::<Note>(), Err(NoteParseError::InvalidAccidental(2)));
}

#[test]
fn long_accidental_runs_keep_their_exact_sum() {
    let sharps = format!("C{}", "#".repeat(128));
    assert_eq!(Note::parse(&sharps).unwrap().accidental, 128);
    let flats = format!("C{}", "𝄫".repeat(5000));
    assert_eq!(Note::parse(&flats).unwrap().accidental, -10000);
    let text = format!("C{}-128", "𝄪".repeat(800));
    let n = Note::parse(&text).unwrap();
    assert_eq!(n.accidental, 1600);
    assert_eq!(n.octave, -128);
    assert_eq!(n.pitch(), 76);
    let text = format!("C{}300", "𝄪".repeat(64));
    assert_eq!(Note::parse(&text), Err(NoteParseError::MalformedOctave(65)));
    let text = format!("C{}3+300", "𝄪".repeat(64));
    assert_eq!(Note::parse(&text), Err(NoteParseError::MalformedCents(66)));
}
