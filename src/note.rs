use vstd::prelude::*;

use crate::error::NoteParseError;
use crate::parse::{accidental_run_len, scan_accidentals};

verus! {

/// One of the seven natural note names.
#[derive(Debug, Clone, Copy, PartialEq, Eq, Structural)]
pub enum PitchLetter {
    C,
    D,
    E,
    F,
    G,
    A,
    B,
}

impl PitchLetter {
    /// Semitones above C within one octave.
    pub open spec fn semitone_spec(self) -> int {
        match self {
            PitchLetter::C => 0,
            PitchLetter::D => 2,
            PitchLetter::E => 4,
            PitchLetter::F => 5,
            PitchLetter::G => 7,
            PitchLetter::A => 9,
            PitchLetter::B => 11,
        }
    }

    /// The canonical (upper-case) name of the letter.
    pub open spec fn name_spec(self) -> char {
        match self {
            PitchLetter::C => 'C',
            PitchLetter::D => 'D',
            PitchLetter::E => 'E',
            PitchLetter::F => 'F',
            PitchLetter::G => 'G',
            PitchLetter::A => 'A',
            PitchLetter::B => 'B',
        }
    }

    pub fn semitone(&self) -> (r: i8)
        ensures
            r == self.semitone_spec(),
    {
        match self {
            PitchLetter::C => 0,
            PitchLetter::D => 2,
            PitchLetter::E => 4,
            PitchLetter::F => 5,
            PitchLetter::G => 7,
            PitchLetter::A => 9,
            PitchLetter::B => 11,
        }
    }

    pub fn name(&self) -> (r: char)
        ensures
            r == self.name_spec(),
    {
        match self {
            PitchLetter::C => 'C',
            PitchLetter::D => 'D',
            PitchLetter::E => 'E',
            PitchLetter::F => 'F',
            PitchLetter::G => 'G',
            PitchLetter::A => 'A',
            PitchLetter::B => 'B',
        }
    }
}

/// The letter that a character names, in either case.
pub open spec fn letter_of(c: char) -> Option<PitchLetter> {
    if c == 'C' || c == 'c' {
        Some(PitchLetter::C)
    } else if c == 'D' || c == 'd' {
        Some(PitchLetter::D)
    } else if c == 'E' || c == 'e' {
        Some(PitchLetter::E)
    } else if c == 'F' || c == 'f' {
        Some(PitchLetter::F)
    } else if c == 'G' || c == 'g' {
        Some(PitchLetter::G)
    } else if c == 'A' || c == 'a' {
        Some(PitchLetter::A)
    } else if c == 'B' || c == 'b' {
        Some(PitchLetter::B)
    } else {
        None
    }
}

pub fn letter_from_char(c: char) -> (r: Option<PitchLetter>)
    ensures
        r == letter_of(c),
{
    if c == 'C' || c == 'c' {
        Some(PitchLetter::C)
    } else if c == 'D' || c == 'd' {
        Some(PitchLetter::D)
    } else if c == 'E' || c == 'e' {
        Some(PitchLetter::E)
    } else if c == 'F' || c == 'f' {
        Some(PitchLetter::F)
    } else if c == 'G' || c == 'g' {
        Some(PitchLetter::G)
    } else if c == 'A' || c == 'a' {
        Some(PitchLetter::A)
    } else if c == 'B' || c == 'b' {
        Some(PitchLetter::B)
    } else {
        None
    }
}

/// Whether `c` is one of the recognised accidental symbols.
pub open spec fn is_accidental(c: char) -> bool {
    c == '#' || c == '♯' || c == '𝄪' || c == 'b' || c == '!' || c == '♭' || c == '𝄫' || c == '♮'
}

/// Semitone offset of one accidental symbol (zero for anything else).
pub open spec fn accidental_offset(c: char) -> int {
    if c == '#' || c == '♯' {
        1
    } else if c == '𝄪' {
        2
    } else if c == 'b' || c == '!' || c == '♭' {
        -1
    } else if c == '𝄫' {
        -2
    } else {
        0
    }
}

/// Sum of the offsets of a run of accidental symbols.
pub open spec fn accidental_sum(s: Seq<char>) -> int
    decreases s.len(),
{
    if s.len() == 0 {
        0
    } else {
        accidental_sum(s.drop_last()) + accidental_offset(s.last())
    }
}

pub fn accidental_symbol_offset(c: char) -> (r: Option<i8>)
    ensures
        r.is_some() == is_accidental(c),
        r.is_some() ==> r.unwrap() == accidental_offset(c),
{
    if c == '#' || c == '♯' {
        Some(1)
    } else if c == '𝄪' {
        Some(2)
    } else if c == 'b' || c == '!' || c == '♭' {
        Some(-1)
    } else if c == '𝄫' {
        Some(-2)
    } else if c == '♮' {
        Some(0)
    } else {
        None
    }
}

/// `cents / 100` rounded to the nearest integer, halves away from zero.
pub open spec fn round_cents(cents: int) -> int {
    if cents >= 0 {
        (cents + 50) / 100
    } else {
        -((50 - cents) / 100)
    }
}

/// A fully resolved note: letter, summed accidental offset, octave and cents.
///
/// An absent octave or cents value is stored as zero.
#[derive(Debug, Clone, Copy, PartialEq, Eq, Structural)]
pub struct Note {
    pub letter: PitchLetter,
    pub accidental: i128,
    pub octave: i8,
    pub cents: i8,
}

/// Semitone number of a note without its cents.
pub open spec fn base_pitch(n: Note) -> int {
    12 * (n.octave + 1) + n.letter.semitone_spec() + n.accidental
}

/// MIDI-style integer pitch number of a note.
pub open spec fn pitch_spec(n: Note) -> int {
    base_pitch(n) + round_cents(n.cents as int)
}

/// Exact fractional pitch, in hundredths of a semitone.
pub open spec fn pitch_cents_spec(n: Note) -> int {
    100 * base_pitch(n) + n.cents
}

pub open spec fn fits_i128(v: int) -> bool {
    i128::MIN <= v <= i128::MAX
}

impl Note {
    /// MIDI-style pitch number: `12 * (octave + 1) + semitone + accidental`,
    /// corrected by the cents rounded to whole semitones (halves away from zero).
    pub fn pitch(&self) -> (r: i128)
        requires
            fits_i128(pitch_spec(*self)),
        ensures
            r == pitch_spec(*self),
    {
        let rounded: i32 = if self.cents >= 50 {
            1
        } else if self.cents <= -50 {
            -1
        } else {
            0
        };
        let rest: i32 = 12 * (self.octave as i32 + 1) + self.letter.semitone() as i32 + rounded;
        self.accidental + rest as i128
    }

    /// The fractional pitch scaled by 100, so that it is exact: `Some(4912)`
    /// stands for 49.12 semitones. `None` when that number does not fit in
    /// an `i128`.
    pub fn pitch_cents(&self) -> (r: Option<i128>)
        ensures
            r == if fits_i128(pitch_cents_spec(*self)) {
                Some(pitch_cents_spec(*self) as i128)
            } else {
                None::<i128>
            },
    {
        let rest: i128 = (12 * (self.octave as i32 + 1) + self.letter.semitone() as i32) as i128;
        let c = self.cents as i128;
        if (rest >= 0 && self.accidental > i128::MAX - rest) || (rest < 0 && self.accidental
            < i128::MIN - rest) {
            return None;
        }
        let whole = self.accidental + rest;
        let top: u128 = if c >= 0 {
            (i128::MAX as u128) - c as u128
        } else {
            (i128::MAX as u128) + ((-c) as u128)
        };
        let hi: i128 = (top / 100) as i128;
        let room: u128 = if c >= 0 {
            (i128::MAX as u128) + 1 + c as u128
        } else {
            (i128::MAX as u128) + 1 - ((-c) as u128)
        };
        let lo: i128 = (room / 100) as i128;
        if whole > hi || whole < -lo {
            return None;
        }
        if whole > 0 {
            Some(100 * (whole - 2) + (200 + c))
        } else {
            Some(100 * (whole + 2) + (c - 200))
        }
    }

    pub fn octave(&self) -> (r: i8)
        ensures
            r == self.octave,
    {
        self.octave
    }
}

/// The note with the given letter name (one character, either case) and
/// numeric fields, or `InvalidLetter` when the name is not a pitch letter.
pub open spec fn new_spec(name: Seq<char>, accidental: i128, octave: i8, cents: i8) -> Result<
    Note,
    NoteParseError,
> {
    if name.len() == 1 && letter_of(name[0]).is_some() {
        Ok(Note { letter: letter_of(name[0]).unwrap(), accidental, octave, cents })
    } else {
        Err(NoteParseError::InvalidLetter)
    }
}

/// The note made of already separated fields: a letter, a run of accidental
/// symbols, and an optional octave and cents, each absent one standing for 0.
pub open spec fn build_spec(
    letter: char,
    accidentals: Seq<char>,
    octave: Option<i8>,
    cents: Option<i8>,
) -> Result<Note, NoteParseError> {
    let a = accidental_run_len(accidentals);
    if letter_of(letter).is_none() {
        Err(NoteParseError::InvalidLetter)
    } else if a < accidentals.len() {
        Err(NoteParseError::InvalidAccidental(a as usize))
    } else {
        Ok(
            Note {
                letter: letter_of(letter).unwrap(),
                accidental: accidental_sum(accidentals) as i128,
                octave: match octave {
                    Some(o) => o,
                    None => 0,
                },
                cents: match cents {
                    Some(c) => c,
                    None => 0,
                },
            },
        )
    }
}

impl Note {
    /// A note from a letter name (`"C"` or `"c"`, ...) and numeric fields.
    pub fn new(pitchname: &str, accidental: i128, octave: i8, cents: i8) -> (r: Result<
        Note,
        NoteParseError,
    >)
        ensures
            r == new_spec(pitchname@, accidental, octave, cents),
    {
        if pitchname.unicode_len() != 1 {
            return Err(NoteParseError::InvalidLetter);
        }
        match letter_from_char(pitchname.get_char(0)) {
            Some(letter) => Ok(Note { letter, accidental, octave, cents }),
            None => Err(NoteParseError::InvalidLetter),
        }
    }

    /// A note from already separated fields. Every character of
    /// `accidentals` must be an accidental symbol (else `InvalidAccidental`
    /// at its position); the note holds the exact sum of their offsets.
    pub fn build(letter: char, accidentals: &str, octave: Option<i8>, cents: Option<i8>) -> (r:
        Result<Note, NoteParseError>)
        ensures
            r == build_spec(letter, accidentals@, octave, cents),
    {
        let l = match letter_from_char(letter) {
            Some(l) => l,
            None => {
                return Err(NoteParseError::InvalidLetter);
            },
        };
        let len = accidentals.unicode_len();
        let (end, sum) = scan_accidentals(accidentals, 0, len);
        proof {
            assert(accidentals@.skip(0) =~= accidentals@);
            assert(accidentals@.subrange(0, end as int) =~= accidentals@.take(end as int));
        }
        if end < len {
            return Err(NoteParseError::InvalidAccidental(end));
        }
        proof {
            assert(accidentals@.take(end as int) =~= accidentals@);
        }
        let octave = match octave {
            Some(o) => o,
            None => 0,
        };
        let cents = match cents {
            Some(c) => c,
            None => 0,
        };
        Ok(Note { letter: l, accidental: sum, octave, cents })
    }
}

} // verus!
