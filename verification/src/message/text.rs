//! The text inside frames: terminators, digits, signs and decimal literals.

use vstd::prelude::*;

verus! {

/// Carriage return, the first byte of the terminator.
pub const CR: u8 = 13;

/// Line feed, the second byte of the terminator.
pub const LF: u8 = 10;

/// `+`
pub const PLUS: u8 = 43;

/// `-`
pub const MINUS: u8 = 45;

/// `.`
pub const DOT: u8 = 46;

/// `E`
pub const UPPER_E: u8 = 69;

/// `e`
pub const LOWER_E: u8 = 101;

/// A carriage return followed by a line feed, the frame terminator, stands
/// at index `i` of `s`.
pub open spec fn terminator_at(s: Seq<u8>, i: int) -> bool {
    0 <= i && i + 1 < s.len() && s[i] == CR && s[i + 1] == LF
}

/// The frame terminator occurs somewhere in `s`.
pub open spec fn contains_terminator(s: Seq<u8>) -> bool {
    exists|i: int| terminator_at(s, i)
}

/// The terminator stands at `i` and nowhere before it.
pub open spec fn is_first_terminator(s: Seq<u8>, i: int) -> bool {
    terminator_at(s, i) && forall|j: int| 0 <= j < i ==> !terminator_at(s, j)
}

/// Where the first terminator of `s` starts, if `s` holds one.
pub open spec fn first_terminator(s: Seq<u8>) -> Option<int> {
    if exists|i: int| is_first_terminator(s, i) {
        Some(choose|i: int| is_first_terminator(s, i))
    } else {
        None
    }
}

/// The two bytes of the frame terminator.
pub open spec fn terminator() -> Seq<u8> {
    seq![CR, LF]
}

/// The bytes of an ASCII text, one byte for each character.
pub open spec fn ascii_bytes(text: Seq<char>) -> Seq<u8> {
    Seq::new(text.len(), |i: int| text[i] as u8)
}

/// The byte is an ASCII decimal digit.
pub open spec fn is_digit(b: u8) -> bool {
    48 <= b <= 57
}

/// Every byte of `s` is a decimal digit.
pub open spec fn all_digits(s: Seq<u8>) -> bool {
    forall|i: int| 0 <= i < s.len() ==> is_digit(#[trigger] s[i])
}

/// The number that a run of decimal digits denotes, most significant first.
pub open spec fn digits_value(s: Seq<u8>) -> nat
    decreases s.len(),
{
    if s.len() == 0 {
        0
    } else {
        digits_value(s.drop_last()) * 10 + (s.last() - 48) as nat
    }
}

/// The shortest decimal rendering of `n`.
pub open spec fn decimal(n: nat) -> Seq<u8>
    decreases n,
{
    if n < 10 {
        seq![(48 + n) as u8]
    } else {
        decimal(n / 10).push((48 + n % 10) as u8)
    }
}

/// The decimal rendering of a signed number: a minus sign for negative
/// values, no sign otherwise.
pub open spec fn integer_text(v: int) -> Seq<u8> {
    if v < 0 {
        seq![MINUS] + decimal((-v) as nat)
    } else {
        decimal(v as nat)
    }
}

/// The length of the optional sign at position `at`: 1 if a `+` or `-`
/// stands there, else 0.
pub open spec fn sign_len(s: Seq<u8>, at: int) -> int {
    if 0 <= at < s.len() && (s[at] == PLUS || s[at] == MINUS) {
        1
    } else {
        0
    }
}

/// `s` is an optional sign followed by one or more decimal digits.
pub open spec fn is_integer_text(s: Seq<u8>) -> bool {
    let digits = s.skip(sign_len(s, 0));
    digits.len() > 0 && all_digits(digits)
}

/// The value that an integer text denotes.
pub open spec fn integer_value(s: Seq<u8>) -> int {
    let magnitude = digits_value(s.skip(sign_len(s, 0))) as int;
    if s.len() > 0 && s[0] == MINUS {
        -magnitude
    } else {
        magnitude
    }
}

/// The index just past the longest run of digits that starts at `from`.
pub open spec fn digit_run(s: Seq<u8>, from: int) -> int
    decreases s.len() - from,
{
    if 0 <= from < s.len() && is_digit(s[from]) {
        digit_run(s, from + 1)
    } else {
        from
    }
}

/// The index just past the optional fraction that starts at `at`: a dot
/// followed by one or more digits. `None` if a dot stands there without a
/// digit behind it.
pub open spec fn fraction_end(s: Seq<u8>, at: int) -> Option<int> {
    if 0 <= at < s.len() && s[at] == DOT {
        let end = digit_run(s, at + 1);
        if end > at + 1 {
            Some(end)
        } else {
            None
        }
    } else {
        Some(at)
    }
}

/// The index just past the optional exponent that starts at `at`: `e` or
/// `E`, an optional sign, one or more digits. `None` if the marker stands
/// there without digits behind it.
pub open spec fn exponent_end(s: Seq<u8>, at: int) -> Option<int> {
    if 0 <= at < s.len() && (s[at] == LOWER_E || s[at] == UPPER_E) {
        let digits = at + 1 + sign_len(s, at + 1);
        let end = digit_run(s, digits);
        if end > digits {
            Some(end)
        } else {
            None
        }
    } else {
        Some(at)
    }
}

/// `s` is a decimal floating-point literal: an optional sign, one or more
/// digits, an optional fraction and an optional exponent, and nothing else.
pub open spec fn is_float_text(s: Seq<u8>) -> bool {
    let whole = sign_len(s, 0);
    let whole_end = digit_run(s, whole);
    &&& whole_end > whole
    &&& fraction_end(s, whole_end) matches Some(frac_end)
    &&& exponent_end(s, frac_end) matches Some(end)
    &&& end == s.len()
}

/// The first terminator is where the terminator stands with none before it.
pub proof fn lemma_first_terminator(s: Seq<u8>, i: int)
    requires
        is_first_terminator(s, i),
    ensures
        first_terminator(s) == Some(i),
{
    let k = choose|k: int| is_first_terminator(s, k);
    assert(is_first_terminator(s, k));
    if k < i {
        assert(!terminator_at(s, k));
    }
    if i < k {
        assert(!terminator_at(s, i));
    }
}

/// Where the first terminator stands, a terminator stands, and the text
/// before it holds none.
pub proof fn lemma_first_terminator_found(s: Seq<u8>)
    ensures
        first_terminator(s) matches Some(at) ==> {
            &&& is_first_terminator(s, at)
            &&& at + 2 <= s.len()
            &&& !contains_terminator(s.take(at))
        },
{
    if let Some(at) = first_terminator(s) {
        assert(is_first_terminator(s, at));
        assert forall|j: int| !terminator_at(s.take(at), j) by {
            if terminator_at(s.take(at), j) {
                assert(terminator_at(s, j));
            }
        }
    }
}

/// A text without any terminator has no first terminator.
pub proof fn lemma_no_terminator(s: Seq<u8>)
    requires
        !contains_terminator(s),
    ensures
        first_terminator(s) is None,
{
    if exists|i: int| is_first_terminator(s, i) {
        let k = choose|k: int| is_first_terminator(s, k);
        assert(terminator_at(s, k));
    }
}

/// A line without a terminator inside, followed by a terminator, ends at
/// that terminator, whatever comes behind it.
pub proof fn lemma_line_found(content: Seq<u8>, rest: Seq<u8>)
    requires
        !contains_terminator(content),
    ensures
        first_terminator(content + terminator() + rest) == Some(content.len() as int),
        (content + terminator() + rest).take(content.len() as int) == content,
        (content + terminator() + rest).skip(content.len() as int + 2) == rest,
{
    let s = content + terminator() + rest;
    let at = content.len() as int;
    assert(s[at] == CR && s[at + 1] == LF);
    assert forall|j: int| 0 <= j < at implies !terminator_at(s, j) by {
        if terminator_at(s, j) {
            if j + 1 < at {
                assert(terminator_at(content, j));
            } else {
                assert(s[j + 1] == CR);
            }
        }
    }
    assert(is_first_terminator(s, at));
    lemma_first_terminator(s, at);
    assert(s.take(at) =~= content);
    assert(s.skip(at + 2) =~= rest);
}

/// A line without a terminator inside, followed by a terminator, holds no
/// terminator as long as its last byte is missing.
pub proof fn lemma_line_missing(content: Seq<u8>, n: int)
    requires
        !contains_terminator(content),
        0 <= n < content.len() + 2,
    ensures
        first_terminator((content + terminator()).take(n)) is None,
{
    let s = (content + terminator()).take(n);
    assert forall|j: int| !terminator_at(s, j) by {
        if terminator_at(s, j) {
            if j + 1 < content.len() {
                assert(terminator_at(content, j));
            } else {
                assert(s[j + 1] == CR);
            }
        }
    }
    lemma_no_terminator(s);
}

/// A text that holds no carriage return holds no terminator.
pub proof fn lemma_no_carriage_return(s: Seq<u8>)
    requires
        forall|i: int| 0 <= i < s.len() ==> #[trigger] s[i] != CR,
    ensures
        !contains_terminator(s),
{
    assert forall|j: int| !terminator_at(s, j) by {
        if terminator_at(s, j) {
            assert(s[j] != CR);
        }
    }
}

/// A floating-point literal holds no terminator.
pub proof fn lemma_float_text_has_no_terminator(s: Seq<u8>)
    requires
        is_float_text(s),
    ensures
        !contains_terminator(s),
{
    let whole = sign_len(s, 0);
    let whole_end = digit_run(s, whole);
    lemma_digit_run(s, whole);
    let frac_end = fraction_end(s, whole_end)->0;
    if whole_end < s.len() && s[whole_end] == DOT {
        lemma_digit_run(s, whole_end + 1);
    }
    if frac_end < s.len() && (s[frac_end] == LOWER_E || s[frac_end] == UPPER_E) {
        let digits = frac_end + 1 + sign_len(s, frac_end + 1);
        lemma_digit_run(s, digits);
    }
    assert forall|i: int| 0 <= i < s.len() implies #[trigger] s[i] != CR by {
        if i < whole {
        } else if i < whole_end {
            assert(is_digit(s[i]));
        } else if i < frac_end {
            if i > whole_end {
                assert(is_digit(s[i]));
            }
        } else {
            let digits = frac_end + 1 + sign_len(s, frac_end + 1);
            if i >= digits {
                assert(is_digit(s[i]));
            }
        }
    }
    lemma_no_carriage_return(s);
}

/// A run of digits ends inside the text, on a byte that is no digit, and
/// holds digits only.
pub proof fn lemma_digit_run(s: Seq<u8>, from: int)
    requires
        0 <= from <= s.len(),
    ensures
        from <= digit_run(s, from) <= s.len(),
        forall|i: int| from <= i < digit_run(s, from) ==> is_digit(#[trigger] s[i]),
        digit_run(s, from) < s.len() ==> !is_digit(s[digit_run(s, from)]),
    decreases s.len() - from,
{
    if from < s.len() && is_digit(s[from]) {
        lemma_digit_run(s, from + 1);
    }
}

/// Appending one digit multiplies the value by ten and adds the digit.
pub proof fn lemma_digits_value_push(s: Seq<u8>, d: u8)
    requires
        is_digit(d),
    ensures
        digits_value(s.push(d)) == digits_value(s) * 10 + (d - 48),
{
    assert(s.push(d).drop_last() =~= s);
}

/// The value of a run of digits is at least the value of each of its prefixes.
pub proof fn lemma_digits_value_grows(s: Seq<u8>, n: int)
    requires
        0 <= n <= s.len(),
    ensures
        digits_value(s.take(n)) <= digits_value(s),
    decreases s.len(),
{
    if n == s.len() {
        assert(s.take(n) =~= s);
    } else {
        lemma_digits_value_grows(s.drop_last(), n);
        assert(s.drop_last().take(n) =~= s.take(n));
    }
}

/// The rendering of a number is a non-empty run of digits that denotes it.
pub proof fn lemma_decimal(n: nat)
    ensures
        decimal(n).len() >= 1,
        all_digits(decimal(n)),
        digits_value(decimal(n)) == n,
    decreases n,
{
    if n < 10 {
        let s = decimal(n);
        assert(s.drop_last() =~= Seq::<u8>::empty());
        assert(digits_value(s.drop_last()) == 0);
    } else {
        lemma_decimal(n / 10);
        lemma_digits_value_push(decimal(n / 10), (48 + n % 10) as u8);
    }
}

/// The rendering of a signed number is an integer text that denotes it.
pub proof fn lemma_integer_text(v: int)
    ensures
        is_integer_text(integer_text(v)),
        integer_value(integer_text(v)) == v,
        !contains_terminator(integer_text(v)),
{
    let t = integer_text(v);
    if v < 0 {
        let m = (-v) as nat;
        lemma_decimal(m);
        assert(t.skip(1) =~= decimal(m));
        assert(t[0] == MINUS);
        assert forall|i: int| 0 <= i < t.len() implies #[trigger] t[i] != CR by {
            if i > 0 {
                assert(is_digit(decimal(m)[i - 1]));
            }
        }
    } else {
        lemma_decimal(v as nat);
        let d = decimal(v as nat);
        assert(is_digit(d[0]));
        assert(t.skip(0) =~= d);
        assert forall|i: int| 0 <= i < t.len() implies #[trigger] t[i] != CR by {
            assert(is_digit(d[i]));
        }
    }
    lemma_no_carriage_return(t);
}

} // verus!
