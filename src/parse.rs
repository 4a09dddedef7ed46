use vstd::prelude::*;

use crate::error::NoteParseError;
use crate::note::{
    accidental_sum, accidental_symbol_offset, is_accidental, letter_from_char, letter_of, Note,
};

verus! {

pub open spec fn is_digit(c: char) -> bool {
    48 <= (c as u32) && (c as u32) <= 57
}

pub open spec fn is_sign(c: char) -> bool {
    c == '+' || c == '-'
}

pub open spec fn digit_value(c: char) -> int {
    (c as u32) - 48
}

/// Length of the run of accidental symbols at the start of `t`.
pub open spec fn accidental_run_len(t: Seq<char>) -> nat
    decreases t.len(),
{
    if t.len() > 0 && is_accidental(t[0]) {
        1 + accidental_run_len(t.drop_first())
    } else {
        0
    }
}

/// Length of the run of decimal digits at the start of `t`.
pub open spec fn digit_run_len(t: Seq<char>) -> nat
    decreases t.len(),
{
    if t.len() > 0 && is_digit(t[0]) {
        1 + digit_run_len(t.drop_first())
    } else {
        0
    }
}

/// Length of the signed integer (`sign? digit+`) at the start of `t`, or 0
/// if there is none.
pub open spec fn signed_run_len(t: Seq<char>) -> nat {
    let k: nat = if t.len() > 0 && is_sign(t[0]) {
        1
    } else {
        0
    };
    let d = digit_run_len(t.skip(k as int));
    if d > 0 {
        k + d
    } else {
        0
    }
}

/// Value of a sequence of decimal digits.
pub open spec fn digits_value(s: Seq<char>) -> int
    decreases s.len(),
{
    if s.len() == 0 {
        0
    } else {
        10 * digits_value(s.drop_last()) + digit_value(s.last())
    }
}

/// Value of a signed integer run.
pub open spec fn signed_value(run: Seq<char>) -> int {
    if run.len() > 0 && run[0] == '-' {
        -digits_value(run.drop_first())
    } else if run.len() > 0 && run[0] == '+' {
        digits_value(run.drop_first())
    } else {
        digits_value(run)
    }
}

pub open spec fn fits_i8(v: int) -> bool {
    -128 <= v <= 127
}

/// Octave and cents from the text `t` that follows the accidental run,
/// which starts at position `at` of the whole text. The first signed
/// integer is the octave, a second one the cents.
pub open spec fn tail_spec(t: Seq<char>, at: int) -> Result<(i8, i8), NoteParseError> {
    let o = signed_run_len(t);
    let u = t.skip(o as int);
    let c = signed_run_len(u);
    let octave = signed_value(t.take(o as int));
    let cents = signed_value(u.take(c as int));
    if t.len() == 0 {
        Ok((0, 0))
    } else if !is_sign(t[0]) && !is_digit(t[0]) {
        Err(NoteParseError::InvalidAccidental(at as usize))
    } else if o == 0 {
        Err(NoteParseError::TrailingInput(at as usize))
    } else if !fits_i8(octave) {
        Err(NoteParseError::MalformedOctave(at as usize))
    } else if u.len() == 0 {
        Ok((octave as i8, 0))
    } else if c == 0 {
        Err(NoteParseError::TrailingInput((at + o) as usize))
    } else if !fits_i8(cents) {
        Err(NoteParseError::MalformedCents((at + o) as usize))
    } else if c < u.len() {
        Err(NoteParseError::TrailingInput((at + o + c) as usize))
    } else {
        Ok((octave as i8, cents as i8))
    }
}

/// The note that a text denotes, or why it denotes none:
/// `letter accidental* octave? cents?`, the whole text.
pub open spec fn parse_spec(s: Seq<char>) -> Result<Note, NoteParseError> {
    let r = s.drop_first();
    let a = accidental_run_len(r);
    let acc = accidental_sum(r.take(a as int));
    if s.len() == 0 {
        Err(NoteParseError::EmptyInput)
    } else if letter_of(s[0]).is_none() {
        Err(NoteParseError::InvalidLetter)
    } else {
        match tail_spec(r.skip(a as int), 1 + a as int) {
            Ok((octave, cents)) => Ok(
                Note { letter: letter_of(s[0]).unwrap(), accidental: acc as i128, octave, cents },
            ),
            Err(e) => Err(e),
        }
    }
}

pub(crate) proof fn lemma_accidental_run_len(t: Seq<char>, k: int)
    requires
        0 <= k <= t.len(),
        forall|j: int| 0 <= j < k ==> is_accidental(#[trigger] t[j]),
        k == t.len() || !is_accidental(t[k]),
    ensures
        accidental_run_len(t) == k,
    decreases k,
{
    if k > 0 {
        lemma_accidental_run_len(t.drop_first(), k - 1);
    }
}

pub(crate) proof fn lemma_digit_run_len(t: Seq<char>, k: int)
    requires
        0 <= k <= t.len(),
        forall|j: int| 0 <= j < k ==> is_digit(#[trigger] t[j]),
        k == t.len() || !is_digit(t[k]),
    ensures
        digit_run_len(t) == k,
    decreases k,
{
    if k > 0 {
        lemma_digit_run_len(t.drop_first(), k - 1);
    }
}

/// Scans the accidental run that starts at `from`: where it ends, and the sum
/// of its offsets.
pub(crate) fn scan_accidentals(text: &str, from: usize, len: usize) -> (r: (usize, i128))
    requires
        len == text@.len(),
        from <= len,
    ensures
        from <= r.0 <= len,
        r.0 == from + accidental_run_len(text@.skip(from as int)),
        r.1 == accidental_sum(text@.subrange(from as int, r.0 as int)),
{
    let mut i: usize = from;
    let mut sum: i128 = 0;
    loop
        invariant
            from <= i <= len,
            len == text@.len(),
            forall|j: int| from <= j < i ==> is_accidental(#[trigger] text@[j]),
            sum == accidental_sum(text@.subrange(from as int, i as int)),
            -2 * (i - from) <= sum <= 2 * (i - from),
        ensures
            from <= i <= len,
            forall|j: int| from <= j < i ==> is_accidental(#[trigger] text@[j]),
            sum == accidental_sum(text@.subrange(from as int, i as int)),
            i == len || !is_accidental(text@[i as int]),
        decreases len - i,
    {
        if i == len {
            break;
        }
        let c = text.get_char(i);
        match accidental_symbol_offset(c) {
            Some(v) => {
                proof {
                    assert(text@.subrange(from as int, i + 1).drop_last() =~= text@.subrange(
                        from as int,
                        i as int,
                    ));
                }
                sum = sum + v as i128;
                i = i + 1;
            },
            None => {
                break;
            },
        }
    }
    proof {
        let t = text@.skip(from as int);
        assert forall|j: int| 0 <= j < i - from implies is_accidental(#[trigger] t[j]) by {
            assert(t[j] == text@[from + j]);
        }
        lemma_accidental_run_len(t, i - from);
    }
    (i, sum)
}

/// Scans the digit run that starts at `from`: where it ends, and its value,
/// capped at 1000.
fn scan_digits(text: &str, from: usize, len: usize) -> (r: (usize, u32))
    requires
        len == text@.len(),
        from <= len,
    ensures
        from <= r.0 <= len,
        r.0 == from + digit_run_len(text@.skip(from as int)),
        digits_value(text@.subrange(from as int, r.0 as int)) >= 0,
        r.1 == if digits_value(text@.subrange(from as int, r.0 as int)) > 1000 {
            1000
        } else {
            digits_value(text@.subrange(from as int, r.0 as int))
        },
{
    let mut i: usize = from;
    let mut value: u32 = 0;
    loop
        invariant
            from <= i <= len,
            len == text@.len(),
            forall|j: int| from <= j < i ==> is_digit(#[trigger] text@[j]),
            digits_value(text@.subrange(from as int, i as int)) >= 0,
            value == if digits_value(text@.subrange(from as int, i as int)) > 1000 {
                1000
            } else {
                digits_value(text@.subrange(from as int, i as int))
            },
        ensures
            from <= i <= len,
            forall|j: int| from <= j < i ==> is_digit(#[trigger] text@[j]),
            digits_value(text@.subrange(from as int, i as int)) >= 0,
            value == if digits_value(text@.subrange(from as int, i as int)) > 1000 {
                1000
            } else {
                digits_value(text@.subrange(from as int, i as int))
            },
            i == len || !is_digit(text@[i as int]),
        decreases len - i,
    {
        if i == len {
            break;
        }
        let c = text.get_char(i);
        let code = c as u32;
        if code < 48 || code > 57 {
            break;
        }
        proof {
            assert(text@.subrange(from as int, i + 1).drop_last() =~= text@.subrange(
                from as int,
                i as int,
            ));
        }
        let d = code - 48;
        if value < 1000 {
            value = 10 * value + d;
            if value > 1000 {
                value = 1000;
            }
        }
        i = i + 1;
    }
    proof {
        let t = text@.skip(from as int);
        assert forall|j: int| 0 <= j < i - from implies is_digit(#[trigger] t[j]) by {
            assert(t[j] == text@[from + j]);
        }
        lemma_digit_run_len(t, i - from);
    }
    (i, value)
}

/// Scans the signed integer that starts at `at`: where it ends (`at` itself
/// when there is none), and its value when that fits in a signed byte.
fn scan_signed(text: &str, at: usize, len: usize) -> (r: (usize, Option<i8>))
    requires
        len == text@.len(),
        at <= len,
    ensures
        at <= r.0 <= len,
        r.0 == at + signed_run_len(text@.skip(at as int)),
        r.0 > at ==> r.1 == if fits_i8(signed_value(text@.subrange(at as int, r.0 as int))) {
            Some(signed_value(text@.subrange(at as int, r.0 as int)) as i8)
        } else {
            None::<i8>
        },
{
    let ghost t = text@.skip(at as int);
    let mut start = at;
    let mut negative = false;
    if at < len {
        let c = text.get_char(at);
        if c == '+' || c == '-' {
            start = at + 1;
            negative = c == '-';
        }
    }
    proof {
        let k: int = if t.len() > 0 && is_sign(t[0]) {
            1
        } else {
            0
        };
        assert(start == at + k);
        assert(t.skip(k) =~= text@.skip(start as int));
    }
    let (end, magnitude) = scan_digits(text, start, len);
    if end == start {
        return (at, None);
    }
    proof {
        let run = text@.subrange(at as int, end as int);
        if start > at {
            assert(run.drop_first() =~= text@.subrange(start as int, end as int));
        } else {
            assert(run =~= text@.subrange(start as int, end as int));
            assert(is_digit(run[0]));
        }
    }
    if negative {
        if magnitude <= 128 {
            let m = magnitude as i16;
            (end, Some((-m) as i8))
        } else {
            (end, None)
        }
    } else {
        if magnitude <= 127 {
            (end, Some(magnitude as i8))
        } else {
            (end, None)
        }
    }
}

/// Octave and cents from the text that follows the accidental run, which
/// ends at `at`.
fn scan_tail(text: &str, at: usize, len: usize) -> (r: Result<(i8, i8), NoteParseError>)
    requires
        len == text@.len(),
        at <= len,
    ensures
        r == tail_spec(text@.skip(at as int), at as int),
{
    let ghost t = text@.skip(at as int);
    if at == len {
        return Ok((0, 0));
    }
    let c = text.get_char(at);
    let code = c as u32;
    if !(c == '+' || c == '-' || (48 <= code && code <= 57)) {
        return Err(NoteParseError::InvalidAccidental(at));
    }
    let (octave_end, octave) = scan_signed(text, at, len);
    if octave_end == at {
        return Err(NoteParseError::TrailingInput(at));
    }
    proof {
        let o = signed_run_len(t);
        assert(t.take(o as int) =~= text@.subrange(at as int, octave_end as int));
        assert(t.skip(o as int) =~= text@.skip(octave_end as int));
    }
    let octave = match octave {
        Some(v) => v,
        None => {
            return Err(NoteParseError::MalformedOctave(at));
        },
    };
    if octave_end == len {
        return Ok((octave, 0));
    }
    let (cents_end, cents) = scan_signed(text, octave_end, len);
    if cents_end == octave_end {
        return Err(NoteParseError::TrailingInput(octave_end));
    }
    proof {
        let u = text@.skip(octave_end as int);
        let c = signed_run_len(u);
        assert(u.take(c as int) =~= text@.subrange(octave_end as int, cents_end as int));
    }
    let cents = match cents {
        Some(v) => v,
        None => {
            return Err(NoteParseError::MalformedCents(octave_end));
        },
    };
    if cents_end < len {
        return Err(NoteParseError::TrailingInput(cents_end));
    }
    Ok((octave, cents))
}

impl Note {
    /// Reads a note from its text: a letter, a run of accidental symbols, an
    /// optional signed octave and an optional signed cents offset, covering
    /// the whole text.
    ///
    /// A character after the letter that is neither an accidental nor the
    /// start of a signed integer is reported as `InvalidAccidental`.
    pub fn parse(text: &str) -> (r: Result<Note, NoteParseError>)
        ensures
            r == parse_spec(text@),
    {
        let len = text.unicode_len();
        if len == 0 {
            return Err(NoteParseError::EmptyInput);
        }
        let letter = match letter_from_char(text.get_char(0)) {
            Some(l) => l,
            None => {
                return Err(NoteParseError::InvalidLetter);
            },
        };
        let (run_end, sum) = scan_accidentals(text, 1, len);
        proof {
            let r = text@.drop_first();
            let a = accidental_run_len(r);
            assert(r =~= text@.skip(1));
            assert(r.take(a as int) =~= text@.subrange(1, run_end as int));
            assert(r.skip(a as int) =~= text@.skip(run_end as int));
        }
        match scan_tail(text, run_end, len) {
            Ok((octave, cents)) => Ok(Note { letter, accidental: sum, octave, cents }),
            Err(e) => Err(e),
        }
    }
}

} // verus!
