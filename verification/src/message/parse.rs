//! Decoding: from bytes to messages.
//!
//! Every parser takes the input from its first byte, the tag included, and
//! hands back the message together with the input that is left. None of them
//! keeps anything between calls: on `Incomplete` the caller reads more and
//! calls again with all of it.

use vstd::prelude::*;
use vstd::slice::slice_subrange;
use super::laws::lemma_decoded_is_well_formed;
use super::message::{frames_of, well_formed, Frame, Message};
use super::text::{
    all_digits, contains_terminator, digit_run, digits_value, first_terminator, fraction_end,
    integer_value, is_first_terminator, is_float_text, is_integer_text,
    lemma_digits_value_grows, lemma_digits_value_push, lemma_first_terminator,
    lemma_no_terminator, sign_len, terminator_at, CR, DOT, LF, LOWER_E, MINUS, PLUS, UPPER_E,
};
use super::wire::{
    decode, decode_all, decode_array, decode_bool, decode_bulk_string, decode_double,
    decode_error, decode_integer, decode_null, decode_simple_string, element_due, frame_due,
    signed_integer, tagged_line, tagged_number, DecodeError, BOOL_FALSE, BOOL_TRUE, TAG_ARRAY,
    TAG_BOOL, TAG_BULK_STRING, TAG_DOUBLE, TAG_ERROR, TAG_INTEGER, TAG_NULL, TAG_SIMPLE_STRING,
};

verus! {

/// The result `r` of a parser on `input` is what `meaning` says: on success
/// the message has the frame as its value and the rest is the input behind
/// the bytes that the frame takes; on failure the error is the same.
pub open spec fn parsed<'a>(
    input: Seq<u8>,
    r: Result<(&'a [u8], Message<'a>), DecodeError>,
    meaning: Result<(Frame, int), DecodeError>,
) -> bool {
    match meaning {
        Ok((frame, used)) => {
            &&& r matches Ok((rest, message))
            &&& message@ == frame
            &&& 0 < used <= input.len()
            &&& rest@ == input.skip(used)
        },
        Err(e) => r matches Err(found) && found == e,
    }
}

/// Splits the input at its first terminator: the line before it, and the
/// input from the terminator on.
fn split_line<'a>(i: &'a [u8]) -> (r: Option<(&'a [u8], &'a [u8])>)
    ensures
        match first_terminator(i@) {
            Some(at) => {
                &&& r matches Some((text, rest))
                &&& text@ == i@.take(at)
                &&& rest@ == i@.skip(at)
                &&& terminator_at(i@, at)
            },
            None => r is None,
        },
{
    let n = i.len();
    if n >= 2 {
        let mut j: usize = 0;
        while j < n - 1
            invariant
                n == i@.len(),
                n >= 2,
                j <= n - 1,
                forall|k: int| 0 <= k < j ==> !terminator_at(i@, k),
            decreases n - j,
        {
            if i[j] == CR && i[j + 1] == LF {
                proof {
                    assert(is_first_terminator(i@, j as int));
                    lemma_first_terminator(i@, j as int);
                }
                return Some((slice_subrange(i, 0, j), slice_subrange(i, j, n)));
            }
            j += 1;
        }
    }
    proof {
        assert(!contains_terminator(i@));
        lemma_no_terminator(i@);
    }
    None
}

/// The number that an integer text denotes, if `text` is one and the number
/// fits the machine's signed word.
fn integer_of(text: &[u8]) -> (r: Option<isize>)
    ensures
        match r {
            Some(v) => is_integer_text(text@) && v == integer_value(text@),
            None => !(is_integer_text(text@) && isize::MIN <= integer_value(text@) <= isize::MAX),
        },
{
    let n = text.len();
    if n == 0 {
        return None;
    }
    let negative = text[0] == MINUS;
    let start: usize = if text[0] == MINUS || text[0] == PLUS {
        1
    } else {
        0
    };
    if start == n {
        return None;
    }
    let limit: i128 = isize::MAX as i128 + 1;
    let mut acc: i128 = 0;
    let mut j: usize = start;
    let ghost digits = text@.skip(start as int);
    while j < n
        invariant
            n == text@.len(),
            start == sign_len(text@, 0),
            start <= j <= n,
            digits == text@.skip(start as int),
            limit == isize::MAX + 1,
            all_digits(digits.take(j - start)),
            0 <= acc <= limit,
            acc == digits_value(digits.take(j - start)),
        decreases n - j,
    {
        let b = text[j];
        if b < 48 || b > 57 {
            proof {
                assert(digits[j - start] == b);
            }
            return None;
        }
        proof {
            assert(digits.take(j + 1 - start) =~= digits.take(j - start).push(b));
            lemma_digits_value_push(digits.take(j - start), b);
        }
        acc = acc * 10 + (b - 48) as i128;
        if acc > limit {
            proof {
                lemma_digits_value_grows(digits, j + 1 - start);
            }
            return None;
        }
        j += 1;
    }
    proof {
        assert(digits.take(n - start) =~= digits);
    }
    if negative {
        Some((-acc) as isize)
    } else if acc == limit {
        None
    } else {
        Some(acc as isize)
    }
}

/// Reads the number on the line at the start of the input: an optional sign
/// and one or more digits, up to the terminator. The rest that is handed
/// back starts at that terminator.
///
/// `Incomplete` if the input holds no terminator, `InvalidInteger` if the
/// line is no integer text or its value does not fit the machine's signed
/// word.
pub fn parse_signed_integer<'a>(i: &'a [u8]) -> (r: Result<(&'a [u8], isize), DecodeError>)
    ensures
        match signed_integer(i@) {
            Ok((value, len)) => {
                &&& r matches Ok((rest, n))
                &&& n == value
                &&& 0 < len
                &&& len + 2 <= i@.len()
                &&& rest@ == i@.skip(len)
                &&& terminator_at(i@, len)
            },
            Err(e) => r matches Err(found) && found == e,
        },
{
    match split_line(i) {
        None => Err(DecodeError::Incomplete),
        Some((text, rest)) => match integer_of(text) {
            None => Err(DecodeError::InvalidInteger),
            Some(n) => Ok((rest, n)),
        },
    }
}

/// Reads a frame that is a tag byte and one line: hands back the line's
/// content and the input behind its terminator.
fn read_tagged_line<'a>(i: &'a [u8], tag: u8) -> (r: Result<(&'a [u8], &'a [u8]), DecodeError>)
    ensures
        match tagged_line(i@, tag) {
            Ok((content, used)) => {
                &&& r matches Ok((text, rest))
                &&& text@ == content
                &&& 0 < used <= i@.len()
                &&& rest@ == i@.skip(used)
            },
            Err(e) => r matches Err(found) && found == e,
        },
{
    if i.len() == 0 || i[0] != tag {
        return Err(DecodeError::UnknownType);
    }
    let body = slice_subrange(i, 1, i.len());
    assert(body@ =~= i@.skip(1));
    match split_line(body) {
        None => Err(DecodeError::Incomplete),
        Some((text, rest)) => {
            let after = slice_subrange(rest, 2, rest.len());
            assert(after@ =~= i@.skip(text@.len() as int + 3));
            Ok((text, after))
        },
    }
}

/// Reads a tag byte and the number on the line behind it: hands back the
/// number and the input behind the line's terminator.
fn read_tagged_number<'a>(i: &'a [u8], tag: u8) -> (r: Result<(isize, &'a [u8]), DecodeError>)
    ensures
        match tagged_number(i@, tag) {
            Ok((value, used)) => {
                &&& r matches Ok((n, rest))
                &&& n == value
                &&& 3 < used <= i@.len()
                &&& rest@ == i@.skip(used)
            },
            Err(e) => r matches Err(found) && found == e,
        },
{
    if i.len() == 0 || i[0] != tag {
        return Err(DecodeError::UnknownType);
    }
    let body = slice_subrange(i, 1, i.len());
    assert(body@ =~= i@.skip(1));
    match parse_signed_integer(body) {
        Err(e) => Err(e),
        Ok((rest, n)) => {
            let after = slice_subrange(rest, 2, rest.len());
            assert(after@ =~= i@.skip(i@.len() - rest@.len() + 2));
            Ok((n, after))
        },
    }
}

/// Decodes a simple string: `+`, the content up to the next terminator, and
/// the terminator.
///
/// `UnknownType` if the input does not start with `+`, `Incomplete` if no
/// terminator follows.
pub fn parse_simple_string<'a>(i: &'a [u8]) -> (r: Result<(&'a [u8], Message<'a>), DecodeError>)
    ensures
        parsed(i@, r, decode_simple_string(i@)),
{
    match read_tagged_line(i, TAG_SIMPLE_STRING) {
        Err(e) => Err(e),
        Ok((content, rest)) => Ok((rest, Message::SimpleString(content))),
    }
}

/// Decodes an error message: `-`, the content up to the next terminator, and
/// the terminator.
///
/// `UnknownType` if the input does not start with `-`, `Incomplete` if no
/// terminator follows.
pub fn parse_error<'a>(i: &'a [u8]) -> (r: Result<(&'a [u8], Message<'a>), DecodeError>)
    ensures
        parsed(i@, r, decode_error(i@)),
{
    match read_tagged_line(i, TAG_ERROR) {
        Err(e) => Err(e),
        Ok((content, rest)) => Ok((rest, Message::Error(content))),
    }
}

/// Decodes an integer: `:`, an optional sign, one or more digits, and the
/// terminator.
///
/// `UnknownType` if the input does not start with `:`, `Incomplete` if no
/// terminator follows, `InvalidInteger` if the line is no integer text or
/// its value does not fit.
pub fn parse_integer<'a>(i: &'a [u8]) -> (r: Result<(&'a [u8], Message<'a>), DecodeError>)
    ensures
        parsed(i@, r, decode_integer(i@)),
{
    match read_tagged_number(i, TAG_INTEGER) {
        Err(e) => Err(e),
        Ok((n, rest)) => Ok((rest, Message::Integer(n))),
    }
}

/// Decodes a bulk string: `$`, a length line, and for a length of zero or
/// more that many bytes, taken as they are, and one terminator. A length of
/// -1 is the null bulk string, which has no body.
///
/// `UnknownType` if the input does not start with `$`; for the length line
/// the errors of [`parse_signed_integer`]; `InvalidLength` for a length
/// below -1; `Incomplete` if fewer bytes than the length follow or the
/// terminator behind them is missing.
pub fn parse_bulk_string<'a>(i: &'a [u8]) -> (r: Result<(&'a [u8], Message<'a>), DecodeError>)
    ensures
        parsed(i@, r, decode_bulk_string(i@)),
{
    match read_tagged_number(i, TAG_BULK_STRING) {
        Err(e) => Err(e),
        Ok((length, body)) => {
            if length == -1 {
                return Ok((body, Message::BulkString(None)));
            }
            if length < -1 {
                return Err(DecodeError::InvalidLength);
            }
            let length = length as usize;
            let ghost head = i@.len() - body@.len();
            if body.len() < length || body.len() - length < 2 || body[length] != CR || body[length
                + 1] != LF {
                return Err(DecodeError::Incomplete);
            }
            let content = slice_subrange(body, 0, length);
            let rest = slice_subrange(body, length + 2, body.len());
            assert(content@ =~= i@.subrange(head, head + length));
            assert(rest@ =~= i@.skip(head + length + 2));
            Ok((rest, Message::BulkString(Some(content))))
        },
    }
}

/// Decodes a null: `_` and the terminator.
///
/// `UnknownType` if the input does not start with `_`, `Incomplete` if the
/// terminator does not follow.
pub fn parse_null<'a>(i: &'a [u8]) -> (r: Result<(&'a [u8], Message<'a>), DecodeError>)
    ensures
        parsed(i@, r, decode_null(i@)),
{
    if i.len() == 0 || i[0] != TAG_NULL {
        return Err(DecodeError::UnknownType);
    }
    if i.len() < 3 || i[1] != CR || i[2] != LF {
        return Err(DecodeError::Incomplete);
    }
    Ok((slice_subrange(i, 3, i.len()), Message::Null))
}

/// Decodes a boolean: `#`, `t` or `f`, and the terminator.
///
/// `UnknownType` if the input does not start with `#` or another byte than
/// `t` or `f` follows, `Incomplete` if the input ends behind the tag or the
/// terminator does not follow.
pub fn parse_bool<'a>(i: &'a [u8]) -> (r: Result<(&'a [u8], Message<'a>), DecodeError>)
    ensures
        parsed(i@, r, decode_bool(i@)),
{
    if i.len() == 0 || i[0] != TAG_BOOL {
        return Err(DecodeError::UnknownType);
    }
    if i.len() < 2 {
        return Err(DecodeError::Incomplete);
    }
    let value = if i[1] == BOOL_TRUE {
        true
    } else if i[1] == BOOL_FALSE {
        false
    } else {
        return Err(DecodeError::UnknownType);
    };
    if i.len() < 4 || i[2] != CR || i[3] != LF {
        return Err(DecodeError::Incomplete);
    }
    Ok((slice_subrange(i, 4, i.len()), Message::Bool(value)))
}

/// The index just past the digits that start at `from`.
fn skip_digits(text: &[u8], from: usize) -> (end: usize)
    requires
        from <= text@.len(),
    ensures
        end == digit_run(text@, from as int),
        from <= end <= text@.len(),
{
    let mut j = from;
    while j < text.len() && text[j] >= 48 && text[j] <= 57
        invariant
            from <= j <= text@.len(),
            digit_run(text@, from as int) == digit_run(text@, j as int),
        decreases text@.len() - j,
    {
        j += 1;
    }
    j
}

/// The length of the optional sign at `at`.
fn skip_sign(text: &[u8], at: usize) -> (n: usize)
    requires
        at <= text@.len(),
    ensures
        n == sign_len(text@, at as int),
{
    if at < text.len() && (text[at] == PLUS || text[at] == MINUS) {
        1
    } else {
        0
    }
}

/// Whether `text` is a decimal floating-point literal.
fn is_float_literal(text: &[u8]) -> (r: bool)
    ensures
        r == is_float_text(text@),
{
    let n = text.len();
    let whole = skip_sign(text, 0);
    let whole_end = skip_digits(text, whole);
    if whole_end == whole {
        return false;
    }
    let frac_end = if whole_end < n && text[whole_end] == DOT {
        let end = skip_digits(text, whole_end + 1);
        if end == whole_end + 1 {
            return false;
        }
        end
    } else {
        whole_end
    };
    assert(fraction_end(text@, whole_end as int) == Some(frac_end as int));
    if frac_end < n && (text[frac_end] == LOWER_E || text[frac_end] == UPPER_E) {
        let digits = frac_end + 1 + skip_sign(text, frac_end + 1);
        if digits > n {
            return false;
        }
        let end = skip_digits(text, digits);
        end > digits && end == n
    } else {
        frac_end == n
    }
}

/// Decodes a double: `,`, a decimal floating-point literal, and the
/// terminator. The literal is an optional sign, one or more digits, an
/// optional fraction (a dot and one or more digits) and an optional exponent
/// (`e` or `E`, an optional sign, one or more digits).
///
/// `UnknownType` if the input does not start with `,`, `Incomplete` if no
/// terminator follows, `InvalidFloat` if the line is no such literal.
pub fn parse_double<'a>(i: &'a [u8]) -> (r: Result<(&'a [u8], Message<'a>), DecodeError>)
    ensures
        parsed(i@, r, decode_double(i@)),
{
    match read_tagged_line(i, TAG_DOUBLE) {
        Err(e) => Err(e),
        Ok((content, rest)) => if is_float_literal(content) {
            Ok((rest, Message::Double(content)))
        } else {
            Err(DecodeError::InvalidFloat)
        },
    }
}

/// Decodes an array: `*`, a length line, and for a length of zero or more
/// that many messages of any type, each from what the one before it left. A
/// length of -1 is the null array, which has no body.
///
/// `UnknownType` if the input does not start with `*`; for the length line
/// the errors of [`parse_signed_integer`]; `InvalidLength` for a length
/// below -1; otherwise the error of the first element that fails.
pub fn parse_array<'a>(i: &'a [u8]) -> (r: Result<(&'a [u8], Message<'a>), DecodeError>)
    ensures
        parsed(i@, r, decode_array(i@)),
    decreases i@.len(), 0nat,
{
    match read_tagged_number(i, TAG_ARRAY) {
        Err(e) => Err(e),
        Ok((length, body)) => {
            if length == -1 {
                return Ok((body, Message::Array(None)));
            }
            if length < -1 {
                return Err(DecodeError::InvalidLength);
            }
            let length = length as usize;
            let ghost head = i@.len() - body@.len();
            let ghost whole = decode_all(body@, length as nat);
            let mut messages: Vec<Message<'a>> = Vec::new();
            let mut rest = body;
            let mut k: usize = 0;
            assert(frames_of(messages@) + Seq::<Frame>::empty() =~= Seq::<Frame>::empty());
            assert(body@.skip(0) =~= body@);
            while k < length
                invariant
                    k <= length,
                    messages@.len() == k,
                    rest@.len() <= body@.len(),
                    body@.len() < i@.len(),
                    rest@ == body@.skip(body@.len() - rest@.len()),
                    whole == decode_all(body@, length as nat),
                    body@ == i@.skip(head),
                    tagged_number(i@, TAG_ARRAY) == Ok::<(int, int), DecodeError>(
                        (length as int, head),
                    ),
                    match decode_all(rest@, (length - k) as nat) {
                        Ok((items, more)) => whole == Ok::<(Seq<Frame>, int), DecodeError>(
                            (frames_of(messages@) + items, body@.len() - rest@.len() + more),
                        ),
                        Err(e) => whole == Err::<(Seq<Frame>, int), DecodeError>(e),
                    },
                decreases length - k,
            {
                let ghost before = rest@;
                let ghost done = frames_of(messages@);
                match parse_message(rest) {
                    Err(e) => {
                        return Err(e);
                    },
                    Ok((after, message)) => {
                        proof {
                            let used = before.len() - after@.len();
                            assert(decode(before) == Ok::<(Frame, int), DecodeError>(
                                (message@, used),
                            ));
                            assert(after@ =~= body@.skip(body@.len() - after@.len()));
                            assert(frames_of(messages@.push(message)) =~= done.push(message@));
                            match decode_all(after@, (length - k - 1) as nat) {
                                Ok((items, more)) => {
                                    assert(done.push(message@) + items =~= done + (seq![message@]
                                        + items));
                                },
                                Err(_) => {},
                            }
                        }
                        messages.push(message);
                        rest = after;
                        k += 1;
                    },
                }
            }
            proof {
                assert(frames_of(messages@) + Seq::<Frame>::empty() =~= frames_of(messages@));
                assert(rest@ =~= i@.skip(head + (body@.len() - rest@.len())));
            }
            Ok((rest, Message::Array(Some(messages))))
        },
    }
}

/// Decodes one message: the type that the first byte announces.
///
/// `UnknownType` if the input is empty or its first byte is no tag;
/// otherwise what the parser of that type gives. A message that comes out
/// is well formed.
pub fn parse_message<'a>(i: &'a [u8]) -> (r: Result<(&'a [u8], Message<'a>), DecodeError>)
    ensures
        parsed(i@, r, decode(i@)),
        r matches Ok((_, message)) ==> well_formed(message@),
    decreases i@.len(), 1nat,
{
    proof {
        lemma_decoded_is_well_formed(i@);
    }
    if i.len() == 0 {
        return Err(DecodeError::UnknownType);
    }
    let tag = i[0];
    if tag == TAG_SIMPLE_STRING {
        parse_simple_string(i)
    } else if tag == TAG_ERROR {
        parse_error(i)
    } else if tag == TAG_INTEGER {
        parse_integer(i)
    } else if tag == TAG_BULK_STRING {
        parse_bulk_string(i)
    } else if tag == TAG_ARRAY {
        parse_array(i)
    } else if tag == TAG_NULL {
        parse_null(i)
    } else if tag == TAG_BOOL {
        parse_bool(i)
    } else if tag == TAG_DOUBLE {
        parse_double(i)
    } else {
        Err(DecodeError::UnknownType)
    }
}

/// Whether the input ends just where a frame is due: whether it is empty,
/// or the start of an array in which everything that is there is whole and
/// the next element is missing altogether.
pub fn is_frame_due(i: &[u8]) -> (r: bool)
    ensures
        r == frame_due(i@),
    decreases i@.len(),
{
    if i.len() == 0 {
        return true;
    }
    match read_tagged_number(i, TAG_ARRAY) {
        Err(_) => false,
        Ok((length, body)) => {
            if length < 0 {
                return false;
            }
            let length = length as usize;
            let ghost head = i@.len() - body@.len();
            let mut rest = body;
            let mut k: usize = 0;
            while k < length
                invariant
                    k <= length,
                    rest@.len() <= body@.len(),
                    body@.len() < i@.len(),
                    body@ == i@.skip(head),
                    tagged_number(i@, TAG_ARRAY) == Ok::<(int, int), DecodeError>(
                        (length as int, head),
                    ),
                    element_due(body@, length as nat) == element_due(rest@, (length - k) as nat),
                decreases length - k,
            {
                match parse_message(rest) {
                    Err(_) => {
                        return is_frame_due(rest);
                    },
                    Ok((after, _)) => {
                        rest = after;
                        k += 1;
                    },
                }
            }
            false
        },
    }
}

} // verus!
