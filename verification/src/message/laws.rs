//! What holds of the codec as a whole: decoding undoes encoding, a frame
//! that was cut short is never taken for another one, and bulk strings carry
//! any bytes.

use vstd::prelude::*;
use super::message::{well_formed, Frame};
use super::text::{
    contains_terminator, decimal, integer_text, lemma_first_terminator_found,
    lemma_float_text_has_no_terminator, lemma_integer_text, lemma_line_found, lemma_line_missing,
    terminator, terminator_at,
};
use super::wire::{
    decode, decode_all, element_due, encode, encode_all, frame_due, tagged_line, tagged_number,
    unfinished, DecodeError,
    TAG_ARRAY, TAG_BULK_STRING, TAG_DOUBLE, TAG_ERROR, TAG_INTEGER, TAG_SIMPLE_STRING,
};

verus! {

/// A tag, a line without a terminator inside and a terminator read back as
/// that line, whatever follows.
proof fn lemma_tagged_line(tag: u8, content: Seq<u8>, tail: Seq<u8>)
    requires
        !contains_terminator(content),
    ensures
        tagged_line(seq![tag] + content + terminator() + tail, tag) == Ok::<
            (Seq<u8>, int),
            DecodeError,
        >((content, content.len() as int + 3)),
        (seq![tag] + content + terminator() + tail).skip(content.len() as int + 3) == tail,
{
    let s = seq![tag] + content + terminator() + tail;
    assert(s.skip(1) =~= content + terminator() + tail);
    lemma_line_found(content, tail);
    assert(s.skip(content.len() as int + 3) =~= tail);
}

/// A tag, a line and a terminator of which the end is missing are
/// incomplete.
proof fn lemma_tagged_line_cut(tag: u8, content: Seq<u8>, n: int)
    requires
        !contains_terminator(content),
        1 <= n < content.len() + 3,
    ensures
        tagged_line((seq![tag] + content + terminator()).take(n), tag) == Err::<
            (Seq<u8>, int),
            DecodeError,
        >(DecodeError::Incomplete),
{
    let s = (seq![tag] + content + terminator()).take(n);
    assert(s.skip(1) =~= (content + terminator()).take(n - 1));
    lemma_line_missing(content, n - 1);
}

/// A tag, the text of a number that fits and a terminator read back as that
/// number, whatever follows.
proof fn lemma_tagged_number(tag: u8, v: int, tail: Seq<u8>)
    requires
        isize::MIN <= v <= isize::MAX,
    ensures
        tagged_number(seq![tag] + integer_text(v) + terminator() + tail, tag) == Ok::<
            (int, int),
            DecodeError,
        >((v, integer_text(v).len() as int + 3)),
        (seq![tag] + integer_text(v) + terminator() + tail).skip(
            integer_text(v).len() as int + 3,
        ) == tail,
{
    let text = integer_text(v);
    let s = seq![tag] + text + terminator() + tail;
    lemma_integer_text(v);
    assert(s.skip(1) =~= text + terminator() + tail);
    lemma_line_found(text, tail);
    assert(s.skip(text.len() as int + 3) =~= tail);
}

/// A tag, the text of a number and a terminator of which the end is missing
/// are incomplete.
proof fn lemma_tagged_number_cut(tag: u8, v: int, n: int)
    requires
        1 <= n < integer_text(v).len() + 3,
    ensures
        tagged_number((seq![tag] + integer_text(v) + terminator()).take(n), tag) == Err::<
            (int, int),
            DecodeError,
        >(DecodeError::Incomplete),
{
    let text = integer_text(v);
    let s = (seq![tag] + text + terminator()).take(n);
    lemma_integer_text(v);
    assert(s.skip(1) =~= (text + terminator()).take(n - 1));
    lemma_line_missing(text, n - 1);
}

/// A frame that is a tag and one line reads back, whatever follows.
proof fn lemma_round_trip_line(f: Frame, rest: Seq<u8>)
    requires
        well_formed(f),
        f is SimpleString || f is Error || f is Double,
    ensures
        decode(encode(f) + rest) == Ok::<(Frame, int), DecodeError>((f, encode(f).len() as int)),
{
    let s = encode(f) + rest;
    match f {
        Frame::SimpleString(c) => {
            assert(s =~= seq![TAG_SIMPLE_STRING] + c + terminator() + rest);
            lemma_tagged_line(TAG_SIMPLE_STRING, c, rest);
        },
        Frame::Error(c) => {
            assert(s =~= seq![TAG_ERROR] + c + terminator() + rest);
            lemma_tagged_line(TAG_ERROR, c, rest);
        },
        Frame::Double(t) => {
            lemma_float_text_has_no_terminator(t);
            assert(s =~= seq![TAG_DOUBLE] + t + terminator() + rest);
            lemma_tagged_line(TAG_DOUBLE, t, rest);
        },
        _ => {},
    }
}

/// An integer, a bulk string or a null array reads back, whatever follows.
proof fn lemma_round_trip_number(f: Frame, rest: Seq<u8>)
    requires
        well_formed(f),
        f is Integer || f is BulkString || f == Frame::Array(None),
    ensures
        decode(encode(f) + rest) == Ok::<(Frame, int), DecodeError>((f, encode(f).len() as int)),
{
    let s = encode(f) + rest;
    match f {
        Frame::Integer(v) => {
            assert(s =~= seq![TAG_INTEGER] + integer_text(v) + terminator() + rest);
            lemma_tagged_number(TAG_INTEGER, v, rest);
        },
        Frame::BulkString(None) => {
            assert(s =~= seq![TAG_BULK_STRING] + integer_text(-1) + terminator() + rest);
            lemma_tagged_number(TAG_BULK_STRING, -1, rest);
        },
        Frame::BulkString(Some(b)) => {
            let tail = b + terminator() + rest;
            let length = b.len() as int;
            assert(s =~= seq![TAG_BULK_STRING] + integer_text(length) + terminator() + tail);
            lemma_tagged_number(TAG_BULK_STRING, length, tail);
            let head = integer_text(length).len() as int + 3;
            assert(terminator_at(s, head + length));
            assert(s.subrange(head, head + length) =~= b);
        },
        Frame::Array(None) => {
            assert(s =~= seq![TAG_ARRAY] + integer_text(-1) + terminator() + rest);
            lemma_tagged_number(TAG_ARRAY, -1, rest);
        },
        _ => {},
    }
}

/// A null or a boolean reads back, whatever follows.
proof fn lemma_round_trip_mark(f: Frame, rest: Seq<u8>)
    requires
        f is Null || f is Bool,
    ensures
        decode(encode(f) + rest) == Ok::<(Frame, int), DecodeError>((f, encode(f).len() as int)),
{
    let s = encode(f) + rest;
    match f {
        Frame::Null => {
            assert(terminator_at(s, 1));
        },
        Frame::Bool(b) => {
            assert(terminator_at(s, 2));
        },
        _ => {},
    }
}

/// Round trip, with anything behind the frame: the bytes of a well-formed
/// frame, followed by any other bytes, decode to that frame, and the
/// decoder takes exactly the frame's own bytes.
pub proof fn lemma_round_trip_with_rest(f: Frame, rest: Seq<u8>)
    requires
        well_formed(f),
    ensures
        decode(encode(f) + rest) == Ok::<(Frame, int), DecodeError>((f, encode(f).len() as int)),
        encode(f).len() > 0,
    decreases f,
{
    let s = encode(f) + rest;
    match f {
        Frame::Array(Some(items)) => {
            let tail = encode_all(items) + rest;
            let length = items.len() as int;
            assert(s =~= seq![TAG_ARRAY] + integer_text(length) + terminator() + tail);
            lemma_tagged_number(TAG_ARRAY, length, tail);
            lemma_round_trip_all(items, rest);
        },
        Frame::Array(None) | Frame::Integer(_) | Frame::BulkString(_) => {
            lemma_round_trip_number(f, rest);
        },
        Frame::Null | Frame::Bool(_) => {
            lemma_round_trip_mark(f, rest);
        },
        _ => {
            lemma_round_trip_line(f, rest);
        },
    }
}

/// Round trip for frames in a row: their bytes, followed by any other
/// bytes, decode to the same frames in the same order.
pub proof fn lemma_round_trip_all(items: Seq<Frame>, rest: Seq<u8>)
    requires
        forall|i: int| 0 <= i < items.len() ==> well_formed(#[trigger] items[i]),
    ensures
        decode_all(encode_all(items) + rest, items.len()) == Ok::<(Seq<Frame>, int), DecodeError>(
            (items, encode_all(items).len() as int),
        ),
    decreases items,
{
    let s = encode_all(items) + rest;
    if items.len() == 0 {
        assert(items =~= Seq::<Frame>::empty());
    } else {
        let first = items[0];
        let others = items.skip(1);
        let tail = encode_all(others) + rest;
        assert(s =~= encode(first) + tail);
        lemma_round_trip_with_rest(first, tail);
        assert forall|i: int| 0 <= i < others.len() implies well_formed(#[trigger] others[i]) by {
            assert(others[i] == items[i + 1]);
        }
        lemma_round_trip_all(others, rest);
        assert(s.skip(encode(first).len() as int) =~= tail);
        assert(seq![first] + others =~= items);
    }
}

/// Round trip: the bytes of a well-formed frame decode to that frame and
/// nothing is left over. This holds of every variant, of both null forms and
/// of arrays nested to any depth.
pub proof fn lemma_round_trip(f: Frame)
    requires
        well_formed(f),
    ensures
        decode(encode(f)) == Ok::<(Frame, int), DecodeError>((f, encode(f).len() as int)),
{
    lemma_round_trip_with_rest(f, Seq::empty());
    assert(encode(f) + Seq::<u8>::empty() =~= encode(f));
}

/// Every well-formed frame has one encoding, and no two of them share it.
pub proof fn lemma_encoding_is_unique(f: Frame, g: Frame)
    requires
        well_formed(f),
        well_formed(g),
        encode(f) == encode(g),
    ensures
        f == g,
{
    lemma_round_trip(f);
    lemma_round_trip(g);
}

/// Binary safety: a bulk string decodes to exactly the payload that was
/// encoded, whatever bytes the payload holds, terminators included.
pub proof fn lemma_bulk_string_is_binary_safe(payload: Seq<u8>, rest: Seq<u8>)
    requires
        payload.len() <= isize::MAX,
    ensures
        decode(encode(Frame::BulkString(Some(payload))) + rest) == Ok::<
            (Frame, int),
            DecodeError,
        >(
            (
                Frame::BulkString(Some(payload)),
                encode(Frame::BulkString(Some(payload))).len() as int,
            ),
        ),
{
    lemma_round_trip_with_rest(Frame::BulkString(Some(payload)), rest);
}

/// The cut at `n` bytes into the encoding of `f` falls where a frame
/// starts: at the very beginning, or inside an array just where one of its
/// elements begins. There the decoder sees an empty input in place of a
/// frame.
pub open spec fn cut_at_frame_start(f: Frame, n: int) -> bool
    decreases f,
{
    n == 0 || match f {
        Frame::Array(Some(items)) => {
            let head = decimal(items.len()).len() + 3;
            n >= head && cut_at_element_start(items, n - head)
        },
        _ => false,
    }
}

/// The cut at `n` bytes into the encoding of `items` falls where a frame
/// starts.
pub open spec fn cut_at_element_start(items: Seq<Frame>, n: int) -> bool
    decreases items,
{
    if items.len() == 0 {
        false
    } else if n < encode(items[0]).len() {
        cut_at_frame_start(items[0], n)
    } else {
        cut_at_element_start(items.skip(1), n - encode(items[0]).len())
    }
}

/// The error that a frame cut short gives.
pub open spec fn cut_error(at_frame_start: bool) -> DecodeError {
    if at_frame_start {
        DecodeError::UnknownType
    } else {
        DecodeError::Incomplete
    }
}

/// A well-formed frame of which only the first `n` bytes are there never
/// decodes to a frame: it is incomplete, or of unknown type where the cut
/// falls just where a frame starts.
pub proof fn lemma_strict_prefix(f: Frame, n: int)
    requires
        well_formed(f),
        0 <= n < encode(f).len(),
    ensures
        decode(encode(f).take(n)) == Err::<(Frame, int), DecodeError>(
            cut_error(cut_at_frame_start(f, n)),
        ),
    decreases f,
{
    let s = encode(f).take(n);
    if n > 0 {
        match f {
            Frame::SimpleString(c) => {
                assert(encode(f) =~= seq![TAG_SIMPLE_STRING] + c + terminator());
                lemma_tagged_line_cut(TAG_SIMPLE_STRING, c, n);
            },
            Frame::Error(c) => {
                assert(encode(f) =~= seq![TAG_ERROR] + c + terminator());
                lemma_tagged_line_cut(TAG_ERROR, c, n);
            },
            Frame::Integer(v) => {
                lemma_tagged_number_cut(TAG_INTEGER, v, n);
            },
            Frame::BulkString(None) => {
                lemma_tagged_number_cut(TAG_BULK_STRING, -1, n);
            },
            Frame::BulkString(Some(b)) => {
                let length = b.len() as int;
                let head = integer_text(length).len() as int + 3;
                if n < head {
                    assert(s =~= (seq![TAG_BULK_STRING] + integer_text(length) + terminator()).take(
                        n,
                    ));
                    lemma_tagged_number_cut(TAG_BULK_STRING, length, n);
                } else {
                    let tail = (b + terminator()).take(n - head);
                    assert(s =~= seq![TAG_BULK_STRING] + integer_text(length) + terminator()
                        + tail);
                    lemma_tagged_number(TAG_BULK_STRING, length, tail);
                }
            },
            Frame::Array(None) => {
                lemma_tagged_number_cut(TAG_ARRAY, -1, n);
            },
            Frame::Array(Some(items)) => {
                let length = items.len() as int;
                let head = integer_text(length).len() as int + 3;
                if n < head {
                    assert(s =~= (seq![TAG_ARRAY] + integer_text(length) + terminator()).take(n));
                    lemma_tagged_number_cut(TAG_ARRAY, length, n);
                } else {
                    let tail = encode_all(items).take(n - head);
                    assert(s =~= seq![TAG_ARRAY] + integer_text(length) + terminator() + tail);
                    lemma_tagged_number(TAG_ARRAY, length, tail);
                    lemma_strict_prefix_all(items, n - head);
                }
            },
            Frame::Null => {},
            Frame::Bool(b) => {},
            Frame::Double(t) => {
                lemma_float_text_has_no_terminator(t);
                assert(encode(f) =~= seq![TAG_DOUBLE] + t + terminator());
                lemma_tagged_line_cut(TAG_DOUBLE, t, n);
            },
        }
    }
}

/// Frames in a row of which only the first `n` bytes are there never decode
/// to that many frames.
pub proof fn lemma_strict_prefix_all(items: Seq<Frame>, n: int)
    requires
        forall|i: int| 0 <= i < items.len() ==> well_formed(#[trigger] items[i]),
        0 <= n < encode_all(items).len(),
    ensures
        decode_all(encode_all(items).take(n), items.len()) == Err::<
            (Seq<Frame>, int),
            DecodeError,
        >(cut_error(cut_at_element_start(items, n))),
    decreases items,
{
    let s = encode_all(items).take(n);
    let first = items[0];
    let others = items.skip(1);
    let width = encode(first).len() as int;
    if n < width {
        assert(s =~= encode(first).take(n));
        lemma_strict_prefix(first, n);
    } else {
        let tail = encode_all(others).take(n - width);
        assert(s =~= encode(first) + tail);
        lemma_round_trip_with_rest(first, tail);
        assert(s.skip(width) =~= tail);
        assert forall|i: int| 0 <= i < others.len() implies well_formed(#[trigger] others[i]) by {
            assert(others[i] == items[i + 1]);
        }
        lemma_strict_prefix_all(others, n - width);
    }
}

/// Partial-input safety: a well-formed frame of which the end is missing is
/// incomplete, unless the cut falls just where a frame starts.
pub proof fn lemma_partial_input_is_incomplete(f: Frame, n: int)
    requires
        well_formed(f),
        0 <= n < encode(f).len(),
        !cut_at_frame_start(f, n),
    ensures
        decode(encode(f).take(n)) == Err::<(Frame, int), DecodeError>(DecodeError::Incomplete),
{
    lemma_strict_prefix(f, n);
}

/// Where a frame is due, the decoder finds none: the input is of unknown
/// type.
pub proof fn lemma_frame_due_is_of_unknown_type(s: Seq<u8>)
    requires
        frame_due(s),
    ensures
        decode(s) == Err::<(Frame, int), DecodeError>(DecodeError::UnknownType),
    decreases s.len(), 0nat,
{
    if s.len() > 0 {
        if let Ok((length, head)) = tagged_number(s, TAG_ARRAY) {
            lemma_first_terminator_found(s.skip(1));
            lemma_element_due_is_of_unknown_type(s.skip(head), length as nat);
        }
    }
}

/// Where the next of `count` frames is due, the decoder finds fewer than
/// `count`: the input is of unknown type.
pub proof fn lemma_element_due_is_of_unknown_type(s: Seq<u8>, count: nat)
    requires
        element_due(s, count),
    ensures
        decode_all(s, count) == Err::<(Seq<Frame>, int), DecodeError>(DecodeError::UnknownType),
    decreases s.len(), count + 1,
{
    match decode(s) {
        Ok((_, used)) => {
            lemma_element_due_is_of_unknown_type(s.skip(used), (count - 1) as nat);
        },
        Err(_) => {
            lemma_frame_due_is_of_unknown_type(s);
        },
    }
}

/// In a well-formed frame of which only the first `n` bytes are there, a
/// frame is due at the end just when the cut falls where a frame starts.
pub proof fn lemma_frame_due_at_cut(f: Frame, n: int)
    requires
        well_formed(f),
        0 <= n < encode(f).len(),
    ensures
        frame_due(encode(f).take(n)) == cut_at_frame_start(f, n),
    decreases f,
{
    let s = encode(f).take(n);
    if n > 0 {
        match f {
            Frame::Array(None) => {
                lemma_tagged_number_cut(TAG_ARRAY, -1, n);
            },
            Frame::Array(Some(items)) => {
                let length = items.len() as int;
                let head = integer_text(length).len() as int + 3;
                if n < head {
                    assert(s =~= (seq![TAG_ARRAY] + integer_text(length) + terminator()).take(n));
                    lemma_tagged_number_cut(TAG_ARRAY, length, n);
                } else {
                    let tail = encode_all(items).take(n - head);
                    assert(s =~= seq![TAG_ARRAY] + integer_text(length) + terminator() + tail);
                    lemma_tagged_number(TAG_ARRAY, length, tail);
                    lemma_element_due_at_cut(items, n - head);
                }
            },
            _ => {
                assert(s[0] == encode(f)[0]);
            },
        }
    }
}

/// In well-formed frames in a row of which only the first `n` bytes are
/// there, the next frame is due at the end just when the cut falls where a
/// frame starts.
pub proof fn lemma_element_due_at_cut(items: Seq<Frame>, n: int)
    requires
        forall|i: int| 0 <= i < items.len() ==> well_formed(#[trigger] items[i]),
        0 <= n < encode_all(items).len(),
    ensures
        element_due(encode_all(items).take(n), items.len()) == cut_at_element_start(items, n),
    decreases items,
{
    let s = encode_all(items).take(n);
    let first = items[0];
    let others = items.skip(1);
    let width = encode(first).len() as int;
    if n < width {
        assert(s =~= encode(first).take(n));
        lemma_strict_prefix(first, n);
        lemma_frame_due_at_cut(first, n);
    } else {
        let tail = encode_all(others).take(n - width);
        assert(s =~= encode(first) + tail);
        lemma_round_trip_with_rest(first, tail);
        assert(s.skip(width) =~= tail);
        assert forall|i: int| 0 <= i < others.len() implies well_formed(#[trigger] others[i]) by {
            assert(others[i] == items[i + 1]);
        }
        lemma_element_due_at_cut(others, n - width);
    }
}

/// Partial-input safety, for the reader: a well-formed frame of which the
/// end is missing is unfinished, wherever the cut falls.
pub proof fn lemma_strict_prefix_is_unfinished(f: Frame, n: int)
    requires
        well_formed(f),
        0 <= n < encode(f).len(),
    ensures
        unfinished(encode(f).take(n)),
        decode(encode(f).take(n)) is Err,
{
    lemma_strict_prefix(f, n);
    lemma_frame_due_at_cut(f, n);
}

/// What decodes is well formed, and takes at least one byte and no more
/// than the input holds.
pub proof fn lemma_decoded_is_well_formed(s: Seq<u8>)
    ensures
        decode(s) matches Ok((f, used)) ==> well_formed(f) && 0 < used <= s.len(),
    decreases s.len(), 0nat,
{
    if s.len() > 0 {
        lemma_first_terminator_found(s.skip(1));
        if s[0] == TAG_ARRAY {
            if let Ok((length, head)) = tagged_number(s, TAG_ARRAY) {
                if length >= 0 {
                    lemma_decoded_all_are_well_formed(s.skip(head), length as nat);
                }
            }
        }
    }
}

/// What decodes as frames in a row has the number of frames that was asked
/// for, each of them well formed, and takes no more than the input holds.
pub proof fn lemma_decoded_all_are_well_formed(s: Seq<u8>, count: nat)
    ensures
        decode_all(s, count) matches Ok((items, used)) ==> {
            &&& items.len() == count
            &&& 0 <= used <= s.len()
            &&& forall|i: int| 0 <= i < items.len() ==> well_formed(#[trigger] items[i])
        },
    decreases s.len(), count + 1,
{
    if count > 0 {
        lemma_decoded_is_well_formed(s);
        if let Ok((first, used)) = decode(s) {
            lemma_decoded_all_are_well_formed(s.skip(used), (count - 1) as nat);
        }
    }
}

/// Encoding is the inverse of decoding on everything that decodes: a frame
/// that came out of the decoder, encoded and decoded again, is the same
/// frame.
pub proof fn lemma_decoded_round_trip(s: Seq<u8>)
    ensures
        decode(s) matches Ok((f, _)) ==> decode(encode(f)) == Ok::<(Frame, int), DecodeError>(
            (f, encode(f).len() as int),
        ),
{
    lemma_decoded_is_well_formed(s);
    if let Ok((f, _)) = decode(s) {
        lemma_round_trip(f);
    }
}

} // verus!
