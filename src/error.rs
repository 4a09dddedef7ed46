use vstd::prelude::*;

verus! {

/// Why a text is not a note. Positions count characters from the start of
/// the text.
#[derive(Debug, Clone, Copy, PartialEq, Eq, Structural)]
pub enum NoteParseError {
    /// The text is empty.
    EmptyInput,
    /// The first character is not one of `A`-`G` / `a`-`g`.
    InvalidLetter,
    /// A character after the letter is neither an accidental symbol nor the
    /// start of a signed integer.
    InvalidAccidental(usize),
    /// The octave run does not fit in a signed byte.
    MalformedOctave(usize),
    /// The cents run does not fit in a signed byte.
    MalformedCents(usize),
    /// Text is left that the grammar does not take.
    TrailingInput(usize),
}

} // verus!
