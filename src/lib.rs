//! Musical note notation: parsing note names such as `C#3` or `B𝄫6` into a
//! resolved [`Note`], computing MIDI-style pitch numbers, and formatting a
//! note back to its canonical text.
//!
//! Grammar: `letter accidental* octave? cents?`, covering the whole text.
//! The letter is `A`-`G` in either case; accidentals are `#`/`♯` (+1), `𝄪`
//! (+2), `b`/`!`/`♭` (-1), `𝄫` (-2) and `♮` (0), and a run of them of any
//! length is summed exactly (as an `i128`); octave and cents are signed
//! decimal integers that fit in a signed byte, the first one read being the
//! octave. Pitch is `12 * (octave + 1) + semitone + accidentals`, plus the
//! cents rounded to whole semitones with halves away from zero.

pub mod error;
pub mod format;
pub mod laws;
pub mod note;
pub mod parse;
pub mod readers;

pub use error::NoteParseError;
pub use note::{Note, PitchLetter};
pub use readers::{NoteNom, NotePest, NoteRegex};
