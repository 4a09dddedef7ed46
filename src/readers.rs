use vstd::prelude::*;

use crate::error::NoteParseError;
use crate::note::Note;
use crate::parse::parse_spec;

verus! {

/// Reader of note text: `NoteNom::parse` is [`Note::parse`], with the same
/// grammar and the same result.
pub struct NoteNom {}

/// Reader of note text: `NotePest::parse` is [`Note::parse`], with the same
/// grammar and the same result.
pub struct NotePest {}

/// Reader of note text: `NoteRegex::parse` is [`Note::parse`], with the same
/// grammar and the same result.
pub struct NoteRegex {}

impl NoteNom {
    pub fn parse(note: &str) -> (r: Result<Note, NoteParseError>)
        ensures
            r == parse_spec(note@),
    {
        Note::parse(note)
    }
}

impl NotePest {
    pub fn parse(note: &str) -> (r: Result<Note, NoteParseError>)
        ensures
            r == parse_spec(note@),
    {
        Note::parse(note)
    }
}

impl NoteRegex {
    pub fn parse(note: &str) -> (r: Result<Note, NoteParseError>)
        ensures
            r == parse_spec(note@),
    {
        Note::parse(note)
    }
}

impl std::str::FromStr for Note {
    type Err = NoteParseError;

    fn from_str(s: &str) -> (r: Result<Note, NoteParseError>)
        ensures
            r == parse_spec(s@),
    {
        Note::parse(s)
    }
}

} // verus!
