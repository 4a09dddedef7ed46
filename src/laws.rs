use vstd::prelude::*;

use crate::error::NoteParseError;
use crate::format::{
    cents_text, decimal, digit_char, format_spec, octave_text, repeat_char, spelling,
};
use crate::note::{accidental_offset, accidental_sum, is_accidental, letter_of, pitch_spec, Note};
use crate::parse::{
    accidental_run_len, digit_value, digits_value, is_digit, is_sign, lemma_accidental_run_len,
    lemma_digit_run_len, parse_spec, signed_run_len, signed_value, tail_spec,
};

verus! {

proof fn lemma_digit_char(d: int)
    requires
        0 <= d < 10,
    ensures
        is_digit(digit_char(d)),
        digit_value(digit_char(d)) == d,
{
    let ds = seq!['0', '1', '2', '3', '4', '5', '6', '7', '8', '9'];
    assert(ds[0] == '0' && ds[1] == '1' && ds[2] == '2' && ds[3] == '3' && ds[4] == '4');
    assert(ds[5] == '5' && ds[6] == '6' && ds[7] == '7' && ds[8] == '8' && ds[9] == '9');
    assert(d == 0 || d == 1 || d == 2 || d == 3 || d == 4 || d == 5 || d == 6 || d == 7 || d
        == 8 || d == 9);
}

/// The decimal text of `n` is a nonempty run of digits whose value is `n`.
pub proof fn lemma_decimal(n: nat)
    ensures
        decimal(n).len() >= 1,
        forall|i: int| 0 <= i < decimal(n).len() ==> is_digit(#[trigger] decimal(n)[i]),
        digits_value(decimal(n)) == n,
    decreases n,
{
    let d = decimal(n);
    if n < 10 {
        lemma_digit_char(n as int);
        assert(d.drop_last() =~= Seq::<char>::empty());
        assert(digits_value(Seq::<char>::empty()) == 0);
    } else {
        lemma_decimal(n / 10);
        lemma_digit_char((n % 10) as int);
        assert(d.drop_last() =~= decimal(n / 10));
        assert(forall|i: int| 0 <= i < d.len() - 1 ==> d[i] == decimal(n / 10)[i]);
    }
}

proof fn lemma_accidental_run_bound(t: Seq<char>)
    ensures
        accidental_run_len(t) <= t.len(),
    decreases t.len(),
{
    if t.len() > 0 {
        lemma_accidental_run_bound(t.drop_first());
    }
}

proof fn lemma_repeat(c: char, k: nat)
    ensures
        repeat_char(c, k).len() == k,
        forall|i: int| 0 <= i < k ==> #[trigger] repeat_char(c, k)[i] == c,
        accidental_sum(repeat_char(c, k)) == k * accidental_offset(c),
    decreases k,
{
    if k > 0 {
        lemma_repeat(c, (k - 1) as nat);
        assert(repeat_char(c, k).drop_last() =~= repeat_char(c, (k - 1) as nat));
        assert(k * accidental_offset(c) == (k - 1) * accidental_offset(c) + accidental_offset(c))
            by (nonlinear_arith);
    }
}

proof fn lemma_sum_concat(p: Seq<char>, q: Seq<char>)
    ensures
        accidental_sum(p + q) == accidental_sum(p) + accidental_sum(q),
    decreases q.len(),
{
    if q.len() == 0 {
        assert(p + q =~= p);
    } else {
        lemma_sum_concat(p, q.drop_last());
        assert((p + q).drop_last() =~= p + q.drop_last());
    }
}

/// The canonical spelling of an offset is made of accidental symbols that
/// add up to that offset.
pub proof fn lemma_spelling(a: int)
    ensures
        forall|i: int| 0 <= i < spelling(a).len() ==> is_accidental(#[trigger] spelling(a)[i]),
        accidental_sum(spelling(a)) == a,
{
    if a > 0 {
        let p: Seq<char> = if a % 2 == 1 {
            seq!['♯']
        } else {
            Seq::empty()
        };
        lemma_repeat('𝄪', (a / 2) as nat);
        lemma_sum_concat(p, repeat_char('𝄪', (a / 2) as nat));
        if p.len() > 0 {
            assert(p.drop_last() =~= Seq::<char>::empty());
        }
        assert(accidental_sum(Seq::<char>::empty()) == 0);
        assert(accidental_sum(p) == if p.len() > 0 {
            accidental_offset(p[0])
        } else {
            0
        });
        assert(forall|i: int|
            0 <= i < spelling(a).len() ==> #[trigger] spelling(a)[i] == if i < p.len() {
                p[i]
            } else {
                repeat_char('𝄪', (a / 2) as nat)[i - p.len()]
            });
    } else if a < 0 {
        let p: Seq<char> = if (-a) % 2 == 1 {
            seq!['♭']
        } else {
            Seq::empty()
        };
        lemma_repeat('𝄫', ((-a) / 2) as nat);
        lemma_sum_concat(p, repeat_char('𝄫', ((-a) / 2) as nat));
        if p.len() > 0 {
            assert(p.drop_last() =~= Seq::<char>::empty());
        }
        assert(accidental_sum(Seq::<char>::empty()) == 0);
        assert(accidental_sum(p) == if p.len() > 0 {
            accidental_offset(p[0])
        } else {
            0
        });
        assert(forall|i: int|
            0 <= i < spelling(a).len() ==> #[trigger] spelling(a)[i] == if i < p.len() {
                p[i]
            } else {
                repeat_char('𝄫', ((-a) / 2) as nat)[i - p.len()]
            });
    }
}

/// A signed integer written as an optional sign and the decimal text of `m`,
/// followed by text that does not start with a digit, is read back whole.
proof fn lemma_read_signed(sign: Seq<char>, m: nat, rest: Seq<char>)
    requires
        sign.len() == 0 || (sign.len() == 1 && is_sign(sign[0])),
        rest.len() == 0 || !is_digit(rest[0]),
    ensures
        signed_run_len(sign + decimal(m) + rest) == sign.len() + decimal(m).len(),
        signed_value((sign + decimal(m) + rest).take((sign.len() + decimal(m).len()) as int))
            == if sign.len() == 1 && sign[0] == '-' {
            -m
        } else {
            m as int
        },
{
    lemma_decimal(m);
    let d = decimal(m);
    let t = sign + d + rest;
    let k = sign.len() as int;
    assert(t.skip(k) =~= d + rest);
    lemma_digit_run_len(d + rest, d.len() as int);
    let run = t.take(k + d.len());
    if k == 1 {
        assert(run.drop_first() =~= d);
    } else {
        assert(run =~= d);
        assert(is_digit(t[0]));
    }
}

/// Formatting a note whose octave is 0 with no cents, or above 1, and
/// parsing the text gives back the same note.
pub proof fn lemma_format_parse_note(n: Note)
    requires
        n.octave > 1 || (n.octave == 0 && n.cents == 0),
    ensures
        parse_spec(format_spec(n)) == Ok::<Note, NoteParseError>(n),
{
    lemma_format_parse(n);
}

/// Formatting a note and parsing the text gives a note of the same pitch,
/// whenever the octave is written (it is above 1), or the octave equals the
/// cents and the cents round to no semitone (then the omitted octave and the
/// cents read as an octave cancel out).
pub proof fn lemma_format_parse_pitch(n: Note)
    requires
        n.octave > 1 || (n.octave == n.cents && -50 < n.cents < 50),
    ensures
        parse_spec(format_spec(n)) is Ok,
        pitch_spec(parse_spec(format_spec(n))->Ok_0) == pitch_spec(n),
{
    lemma_format_parse(n);
}

/// The text of a note read up to its accidental run: the letter, the offset,
/// and the text that follows.
proof fn lemma_format_head(n: Note)
    ensures
        ({
            let s = format_spec(n);
            let r = s.drop_first();
            let a = accidental_run_len(r);
            &&& s.len() > 0
            &&& letter_of(s[0]) == Some(n.letter)
            &&& a == spelling(n.accidental as int).len()
            &&& accidental_sum(r.take(a as int)) == n.accidental
            &&& r.skip(a as int) == octave_text(n.octave as int) + cents_text(n.cents as int)
        }),
{
    let s = format_spec(n);
    let sp = spelling(n.accidental as int);
    let t = octave_text(n.octave as int) + cents_text(n.cents as int);
    let r = s.drop_first();
    assert(r =~= sp + t);
    lemma_spelling(n.accidental as int);
    lemma_decimal(n.octave as nat);
    lemma_decimal(n.cents as nat);
    lemma_decimal((-n.cents) as nat);
    assert(t.len() == 0 || is_digit(t[0]) || is_sign(t[0]));
    assert forall|j: int| 0 <= j < sp.len() implies is_accidental(#[trigger] r[j]) by {
        assert(r[j] == sp[j]);
    }
    if t.len() > 0 {
        assert(r[sp.len() as int] == t[0]);
    }
    lemma_accidental_run_len(r, sp.len() as int);
    assert(r.take(sp.len() as int) =~= sp);
    assert(r.skip(sp.len() as int) =~= t);
}

/// The text after the accidental run reads as the octave and the cents when
/// the octave is written, and as the cents taken for the octave otherwise.
proof fn lemma_format_tail(n: Note, at: int)
    ensures
        n.octave > 1 ==> tail_spec(octave_text(n.octave as int) + cents_text(n.cents as int), at)
            == Ok::<(i8, i8), NoteParseError>((n.octave, n.cents)),
        n.octave <= 1 ==> tail_spec(octave_text(n.octave as int) + cents_text(n.cents as int), at)
            == Ok::<(i8, i8), NoteParseError>((n.cents, 0)),
{
    let t = octave_text(n.octave as int) + cents_text(n.cents as int);
    let ct = cents_text(n.cents as int);
    let empty = Seq::<char>::empty();
    if n.cents > 0 {
        lemma_read_signed(seq!['+'], n.cents as nat, empty);
        assert(seq!['+'] + decimal(n.cents as nat) + empty =~= ct);
    } else if n.cents < 0 {
        lemma_read_signed(seq!['-'], (-n.cents) as nat, empty);
        assert(seq!['-'] + decimal((-n.cents) as nat) + empty =~= ct);
    }
    if n.octave > 1 {
        lemma_read_signed(empty, n.octave as nat, ct);
        assert(empty + decimal(n.octave as nat) + ct =~= t);
        let o = signed_run_len(t);
        assert(t.skip(o as int) =~= ct);
        if n.cents != 0 {
            assert(ct.take(ct.len() as int) =~= ct);
        }
    } else if n.cents != 0 {
        assert(t =~= ct);
        assert(t.skip(t.len() as int) =~= empty);
        assert(t.take(t.len() as int) =~= t);
    } else {
        assert(t =~= empty);
    }
}

proof fn lemma_format_parse(n: Note)
    ensures
        n.octave > 1 ==> parse_spec(format_spec(n)) == Ok::<Note, NoteParseError>(n),
        n.octave <= 1 ==> parse_spec(format_spec(n)) == Ok::<Note, NoteParseError>(
            Note { octave: n.cents, cents: 0, ..n },
        ),
{
    lemma_format_head(n);
    let a = spelling(n.accidental as int).len();
    lemma_format_tail(n, 1 + a as int);
}

/// Pitch depends on the accidental run only through the sum of its offsets:
/// two texts with the same letter and the same text after their accidental
/// runs, whose runs add up to the same offset, parse alike and, when they
/// parse, to the same note and so the same pitch.
pub proof fn lemma_spelling_invariance(s1: Seq<char>, s2: Seq<char>)
    requires
        s1.len() > 0,
        s2.len() > 0,
        letter_of(s1[0]) == letter_of(s2[0]),
        s1.skip(1 + accidental_run_len(s1.drop_first()) as int) == s2.skip(
            1 + accidental_run_len(s2.drop_first()) as int,
        ),
        accidental_sum(s1.drop_first().take(accidental_run_len(s1.drop_first()) as int))
            == accidental_sum(s2.drop_first().take(accidental_run_len(s2.drop_first()) as int)),
    ensures
        parse_spec(s1) is Ok <==> parse_spec(s2) is Ok,
        parse_spec(s1) is Ok ==> parse_spec(s1) == parse_spec(s2),
        parse_spec(s1) is Ok ==> pitch_spec(parse_spec(s1)->Ok_0) == pitch_spec(
            parse_spec(s2)->Ok_0,
        ),
{
    let r1 = s1.drop_first();
    let r2 = s2.drop_first();
    let a1 = accidental_run_len(r1);
    let a2 = accidental_run_len(r2);
    lemma_accidental_run_bound(r1);
    lemma_accidental_run_bound(r2);
    assert(r1.skip(a1 as int) =~= s1.skip(1 + a1 as int));
    assert(r2.skip(a2 as int) =~= s2.skip(1 + a2 as int));
    let t = r1.skip(a1 as int);
    let x = tail_spec(t, 1 + a1 as int);
    let y = tail_spec(t, 1 + a2 as int);
    assert(x is Ok <==> y is Ok);
    assert(x is Ok ==> x == y);
}

/// A text whose first character is not a pitch letter is rejected as such.
pub proof fn lemma_invalid_letter(s: Seq<char>)
    requires
        s.len() > 0,
        letter_of(s[0]).is_none(),
    ensures
        parse_spec(s) == Err::<Note, NoteParseError>(NoteParseError::InvalidLetter),
{
}

/// The octave is written only when it is above 1, as its exact decimal text
/// right after the letter and accidentals (which hold no digit); otherwise
/// the letter and accidentals are followed by the cents text alone, which is
/// empty or starts with a sign.
pub proof fn lemma_octave_suffix(n: Note)
    ensures
        ({
            let head = seq![n.letter.name_spec()] + spelling(n.accidental as int);
            let ct = cents_text(n.cents as int);
            &&& forall|i: int| 0 <= i < head.len() ==> !is_digit(#[trigger] head[i])
            &&& ct.len() == 0 || is_sign(ct[0])
            &&& n.octave <= 1 ==> format_spec(n) == head + ct
            &&& n.octave > 1 ==> format_spec(n) == head + decimal(n.octave as nat) + ct
            &&& n.octave > 1 ==> digits_value(decimal(n.octave as nat)) == n.octave
            &&& n.octave > 1 ==> forall|i: int|
                0 <= i < decimal(n.octave as nat).len() ==> is_digit(
                    #[trigger] decimal(n.octave as nat)[i],
                )
        }),
{
    let head = seq![n.letter.name_spec()] + spelling(n.accidental as int);
    lemma_spelling(n.accidental as int);
    lemma_decimal(n.octave as nat);
    assert forall|i: int| 0 <= i < head.len() implies !is_digit(#[trigger] head[i]) by {
        if i > 0 {
            assert(head[i] == spelling(n.accidental as int)[i - 1]);
        }
    }
    if n.octave <= 1 {
        assert(octave_text(n.octave as int) =~= Seq::<char>::empty());
        assert(format_spec(n) =~= head + cents_text(n.cents as int));
    }
}

/// Cents are written only when nonzero, and then always as a sign (`+` above
/// zero, `-` below) and the decimal text of their magnitude, at the end of
/// the text; no other sign occurs in the text.
pub proof fn lemma_cents_suffix(n: Note)
    ensures
        ({
            let front = seq![n.letter.name_spec()] + spelling(n.accidental as int) + octave_text(
                n.octave as int,
            );
            let m: nat = if n.cents < 0 {
                (-n.cents) as nat
            } else {
                n.cents as nat
            };
            &&& forall|i: int| 0 <= i < front.len() ==> !is_sign(#[trigger] front[i])
            &&& n.cents == 0 ==> format_spec(n) == front
            &&& n.cents > 0 ==> format_spec(n) == front + seq!['+'] + decimal(m)
            &&& n.cents < 0 ==> format_spec(n) == front + seq!['-'] + decimal(m)
            &&& n.cents != 0 ==> digits_value(decimal(m)) == m
            &&& forall|i: int| 0 <= i < decimal(m).len() ==> is_digit(#[trigger] decimal(m)[i])
        }),
{
    let head = seq![n.letter.name_spec()] + spelling(n.accidental as int);
    let ot = octave_text(n.octave as int);
    let front = head + ot;
    let m: nat = if n.cents < 0 {
        (-n.cents) as nat
    } else {
        n.cents as nat
    };
    lemma_spelling(n.accidental as int);
    lemma_decimal(n.octave as nat);
    lemma_decimal(m);
    assert forall|i: int| 0 <= i < front.len() implies !is_sign(#[trigger] front[i]) by {
        if 0 < i < head.len() {
            assert(front[i] == spelling(n.accidental as int)[i - 1]);
        } else if i >= head.len() {
            assert(front[i] == ot[i - head.len()]);
        }
    }
    if n.cents == 0 {
        assert(format_spec(n) =~= front);
    } else {
        assert(format_spec(n) =~= front + cents_text(n.cents as int));
    }
}

} // verus!
