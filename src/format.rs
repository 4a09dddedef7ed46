use vstd::prelude::*;

use crate::note::{Note, PitchLetter};

verus! {

/// The character of a decimal digit `0 <= d < 10`.
pub open spec fn digit_char(d: int) -> char {
    seq!['0', '1', '2', '3', '4', '5', '6', '7', '8', '9'][d]
}

/// Decimal text of a natural number, without leading zeros.
pub open spec fn decimal(n: nat) -> Seq<char>
    decreases n,
{
    if n < 10 {
        seq![digit_char(n as int)]
    } else {
        decimal(n / 10).push(digit_char((n % 10) as int))
    }
}

/// `n` copies of `c`.
pub open spec fn repeat_char(c: char, n: nat) -> Seq<char>
    decreases n,
{
    if n == 0 {
        Seq::empty()
    } else {
        repeat_char(c, (n - 1) as nat).push(c)
    }
}

/// Canonical spelling of an accidental offset: a single sharp (flat) when the
/// offset is odd, then one double-sharp (double-flat) per two semitones.
/// So 1 is `♯`, 2 is `𝄪`, 3 is `♯𝄪`, 4 is `𝄪𝄪`, and -3 is `♭𝄫`.
pub open spec fn spelling(a: int) -> Seq<char> {
    if a > 0 {
        (if a % 2 == 1 {
            seq!['♯']
        } else {
            Seq::empty()
        }) + repeat_char('𝄪', (a / 2) as nat)
    } else if a < 0 {
        (if (-a) % 2 == 1 {
            seq!['♭']
        } else {
            Seq::empty()
        }) + repeat_char('𝄫', ((-a) / 2) as nat)
    } else {
        Seq::empty()
    }
}

/// The octave as written: only above 1.
pub open spec fn octave_text(octave: int) -> Seq<char> {
    if octave > 1 {
        decimal(octave as nat)
    } else {
        Seq::empty()
    }
}

/// The cents as written: only when nonzero, always with a sign.
pub open spec fn cents_text(cents: int) -> Seq<char> {
    if cents > 0 {
        seq!['+'] + decimal(cents as nat)
    } else if cents < 0 {
        seq!['-'] + decimal((-cents) as nat)
    } else {
        Seq::empty()
    }
}

/// Canonical text of a note.
pub open spec fn format_spec(n: Note) -> Seq<char> {
    seq![n.letter.name_spec()] + spelling(n.accidental as int) + octave_text(n.octave as int)
        + cents_text(n.cents as int)
}

fn letter_text(l: PitchLetter) -> (r: &'static str)
    ensures
        r@ == seq![l.name_spec()],
{
    match l {
        PitchLetter::C => {
            proof {
                reveal_strlit("C");
            }
            "C"
        },
        PitchLetter::D => {
            proof {
                reveal_strlit("D");
            }
            "D"
        },
        PitchLetter::E => {
            proof {
                reveal_strlit("E");
            }
            "E"
        },
        PitchLetter::F => {
            proof {
                reveal_strlit("F");
            }
            "F"
        },
        PitchLetter::G => {
            proof {
                reveal_strlit("G");
            }
            "G"
        },
        PitchLetter::A => {
            proof {
                reveal_strlit("A");
            }
            "A"
        },
        PitchLetter::B => {
            proof {
                reveal_strlit("B");
            }
            "B"
        },
    }
}

fn digit_text(d: u8) -> (r: &'static str)
    requires
        d < 10,
    ensures
        r@ == seq![digit_char(d as int)],
{
    proof {
        reveal_strlit("0");
        reveal_strlit("1");
        reveal_strlit("2");
        reveal_strlit("3");
        reveal_strlit("4");
        reveal_strlit("5");
        reveal_strlit("6");
        reveal_strlit("7");
        reveal_strlit("8");
        reveal_strlit("9");
    }
    if d == 0 {
        "0"
    } else if d == 1 {
        "1"
    } else if d == 2 {
        "2"
    } else if d == 3 {
        "3"
    } else if d == 4 {
        "4"
    } else if d == 5 {
        "5"
    } else if d == 6 {
        "6"
    } else if d == 7 {
        "7"
    } else if d == 8 {
        "8"
    } else {
        "9"
    }
}

/// Appends the decimal text of `n`.
fn push_decimal(out: &mut String, n: u8)
    ensures
        final(out)@ == old(out)@ + decimal(n as nat),
{
    let ghost start = out@;
    if n >= 100 {
        proof {
            assert(decimal((n / 10) as nat) == decimal((n / 100) as nat).push(
                digit_char(((n / 10) % 10) as int),
            ));
        }
        out.append(digit_text(n / 100));
        out.append(digit_text((n / 10) % 10));
        out.append(digit_text(n % 10));
        proof {
            assert(out@ =~= start + decimal(n as nat));
        }
    } else if n >= 10 {
        out.append(digit_text(n / 10));
        out.append(digit_text(n % 10));
        proof {
            assert(decimal((n / 10) as nat) == seq![digit_char((n / 10) as int)]);
            assert(out@ =~= start + decimal(n as nat));
        }
    } else {
        out.append(digit_text(n));
        proof {
            assert(out@ =~= start + decimal(n as nat));
        }
    }
}

/// Appends `k` copies of the one-character text `glyph`.
fn push_repeated(out: &mut String, glyph: &str, k: u128)
    requires
        glyph@.len() == 1,
    ensures
        final(out)@ == old(out)@ + repeat_char(glyph@[0], k as nat),
{
    let ghost start = out@;
    let mut i: u128 = 0;
    while i < k
        invariant
            i <= k,
            glyph@.len() == 1,
            out@ == start + repeat_char(glyph@[0], i as nat),
        decreases k - i,
    {
        out.append(glyph);
        proof {
            assert(glyph@ =~= seq![glyph@[0]]);
            assert(out@ =~= start + repeat_char(glyph@[0], (i + 1) as nat));
        }
        i = i + 1;
    }
}

/// Appends the canonical spelling of an accidental offset.
fn push_spelling(out: &mut String, a: i128)
    ensures
        final(out)@ == old(out)@ + spelling(a as int),
{
    proof {
        reveal_strlit("♯");
        reveal_strlit("𝄪");
        reveal_strlit("♭");
        reveal_strlit("𝄫");
    }
    let ghost start = out@;
    if a > 0 {
        let m = a as u128;
        if m % 2 == 1 {
            out.append("♯");
        }
        push_repeated(out, "𝄪", m / 2);
        proof {
            assert(out@ =~= start + spelling(a as int));
        }
    } else if a < 0 {
        let m: u128 = (-(a + 1)) as u128 + 1;
        assert(m == -a);
        if m % 2 == 1 {
            out.append("♭");
        }
        push_repeated(out, "𝄫", m / 2);
        proof {
            assert(out@ =~= start + spelling(a as int));
        }
    } else {
        proof {
            assert(out@ =~= start + spelling(a as int));
        }
    }
}

impl Note {
    /// Canonical text: the upper-case letter, the canonical accidental
    /// spelling, the octave when it is above 1, and the cents when nonzero,
    /// with an explicit sign.
    pub fn to_string(&self) -> (r: String)
        ensures
            r@ == format_spec(*self),
    {
        let mut out = String::new();
        out.append(letter_text(self.letter));
        push_spelling(&mut out, self.accidental);
        if self.octave > 1 {
            push_decimal(&mut out, self.octave as u8);
        }
        if self.cents > 0 {
            proof {
                reveal_strlit("+");
            }
            out.append("+");
            push_decimal(&mut out, self.cents as u8);
        } else if self.cents < 0 {
            proof {
                reveal_strlit("-");
            }
            out.append("-");
            push_decimal(&mut out, (-(self.cents as i16)) as u8);
        }
        proof {
            assert(out@ =~= format_spec(*self));
        }
        out
    }
}

} // verus!
