//! The wire format as mathematics: what a frame looks like in bytes, and
//! what a run of bytes means.

use vstd::prelude::*;
use super::message::Frame;
use super::text::{
    decimal, first_terminator, integer_text, integer_value, is_float_text, is_integer_text,
    terminator, terminator_at,
};

verus! {

/// `+`, the tag of a simple string.
pub const TAG_SIMPLE_STRING: u8 = 43;

/// `-`, the tag of an error message.
pub const TAG_ERROR: u8 = 45;

/// `:`, the tag of an integer.
pub const TAG_INTEGER: u8 = 58;

/// `$`, the tag of a bulk string.
pub const TAG_BULK_STRING: u8 = 36;

/// `*`, the tag of an array.
pub const TAG_ARRAY: u8 = 42;

/// `_`, the tag of a null.
pub const TAG_NULL: u8 = 95;

/// `#`, the tag of a boolean.
pub const TAG_BOOL: u8 = 35;

/// `,`, the tag of a double.
pub const TAG_DOUBLE: u8 = 44;

/// `t`, the boolean that is true.
pub const BOOL_TRUE: u8 = 116;

/// `f`, the boolean that is false.
pub const BOOL_FALSE: u8 = 102;

/// Why a run of bytes is not a frame.
#[derive(Debug, Clone, Copy, PartialEq, Eq)]
pub enum DecodeError {
    /// The input is empty, or its first bytes mark no known type.
    UnknownType,
    /// The input ends before the frame does, or a terminator that the frame
    /// needs is not where it has to be.
    Incomplete,
    /// A length below -1.
    InvalidLength,
    /// A number or length field that is no integer text, or whose value does
    /// not fit the machine's signed word.
    InvalidInteger,
    /// A double whose content is no decimal floating-point literal.
    InvalidFloat,
}

/// The bytes of a frame.
pub open spec fn encode(f: Frame) -> Seq<u8>
    decreases f,
{
    match f {
        Frame::SimpleString(s) => seq![TAG_SIMPLE_STRING] + s + terminator(),
        Frame::Error(s) => seq![TAG_ERROR] + s + terminator(),
        Frame::Integer(v) => seq![TAG_INTEGER] + integer_text(v) + terminator(),
        Frame::BulkString(Some(b)) => seq![TAG_BULK_STRING] + decimal(b.len()) + terminator() + b
            + terminator(),
        Frame::BulkString(None) => seq![TAG_BULK_STRING] + integer_text(-1) + terminator(),
        Frame::Array(Some(items)) => seq![TAG_ARRAY] + decimal(items.len()) + terminator()
            + encode_all(items),
        Frame::Array(None) => seq![TAG_ARRAY] + integer_text(-1) + terminator(),
        Frame::Null => seq![TAG_NULL] + terminator(),
        Frame::Bool(b) => seq![TAG_BOOL, if b { BOOL_TRUE } else { BOOL_FALSE }] + terminator(),
        Frame::Double(t) => seq![TAG_DOUBLE] + t + terminator(),
    }
}

/// The bytes of a sequence of frames, one after the other.
pub open spec fn encode_all(items: Seq<Frame>) -> Seq<u8>
    decreases items,
{
    if items.len() == 0 {
        Seq::empty()
    } else {
        encode(items[0]) + encode_all(items.skip(1))
    }
}

/// `s` starts with the tag byte `tag`.
pub open spec fn has_tag(s: Seq<u8>, tag: u8) -> bool {
    s.len() > 0 && s[0] == tag
}

/// The line at the start of `s`: the bytes before the first terminator.
/// `None` if `s` holds no terminator.
pub open spec fn line(s: Seq<u8>) -> Option<Seq<u8>> {
    match first_terminator(s) {
        Some(at) => Some(s.take(at)),
        None => None,
    }
}

/// The number that the line at the start of `s` holds, with the length of
/// its text. The terminator behind the text is not counted.
pub open spec fn signed_integer(s: Seq<u8>) -> Result<(int, int), DecodeError> {
    match line(s) {
        None => Err(DecodeError::Incomplete),
        Some(text) => if is_integer_text(text) && isize::MIN <= integer_value(text)
            <= isize::MAX {
            Ok((integer_value(text), text.len() as int))
        } else {
            Err(DecodeError::InvalidInteger)
        },
    }
}

/// What `s` means as a frame that is a tag byte and one line: the line's
/// content, and the bytes that tag, content and terminator take together.
pub open spec fn tagged_line(s: Seq<u8>, tag: u8) -> Result<(Seq<u8>, int), DecodeError> {
    if !has_tag(s, tag) {
        Err(DecodeError::UnknownType)
    } else {
        match line(s.skip(1)) {
            None => Err(DecodeError::Incomplete),
            Some(content) => Ok((content, content.len() as int + 3)),
        }
    }
}

/// What `s` means as a tag byte and a line that holds a number: the number,
/// and the bytes that tag, text and terminator take together.
pub open spec fn tagged_number(s: Seq<u8>, tag: u8) -> Result<(int, int), DecodeError> {
    if !has_tag(s, tag) {
        Err(DecodeError::UnknownType)
    } else {
        match signed_integer(s.skip(1)) {
            Err(e) => Err(e),
            Ok((value, len)) => Ok((value, len + 3)),
        }
    }
}

/// What `s` means as a simple string: the frame and the bytes it takes.
pub open spec fn decode_simple_string(s: Seq<u8>) -> Result<(Frame, int), DecodeError> {
    match tagged_line(s, TAG_SIMPLE_STRING) {
        Err(e) => Err(e),
        Ok((content, used)) => Ok((Frame::SimpleString(content), used)),
    }
}

/// What `s` means as an error message.
pub open spec fn decode_error(s: Seq<u8>) -> Result<(Frame, int), DecodeError> {
    match tagged_line(s, TAG_ERROR) {
        Err(e) => Err(e),
        Ok((content, used)) => Ok((Frame::Error(content), used)),
    }
}

/// What `s` means as an integer.
pub open spec fn decode_integer(s: Seq<u8>) -> Result<(Frame, int), DecodeError> {
    match tagged_number(s, TAG_INTEGER) {
        Err(e) => Err(e),
        Ok((value, used)) => Ok((Frame::Integer(value), used)),
    }
}

/// What `s` means as a bulk string: a length line, then for a length of -1
/// nothing more, and for a length of zero or more that many bytes, whatever
/// they are, and one terminator.
pub open spec fn decode_bulk_string(s: Seq<u8>) -> Result<(Frame, int), DecodeError> {
    match tagged_number(s, TAG_BULK_STRING) {
        Err(e) => Err(e),
        Ok((length, head)) => if length == -1 {
            Ok((Frame::BulkString(None), head))
        } else if length < -1 {
            Err(DecodeError::InvalidLength)
        } else if terminator_at(s, head + length) {
            Ok((Frame::BulkString(Some(s.subrange(head, head + length))), head + length + 2))
        } else {
            Err(DecodeError::Incomplete)
        },
    }
}

/// What `s` means as a null.
pub open spec fn decode_null(s: Seq<u8>) -> Result<(Frame, int), DecodeError> {
    if !has_tag(s, TAG_NULL) {
        Err(DecodeError::UnknownType)
    } else if terminator_at(s, 1) {
        Ok((Frame::Null, 3))
    } else {
        Err(DecodeError::Incomplete)
    }
}

/// What `s` means as a boolean. A byte other than `t` or `f` behind the tag
/// marks no known type.
pub open spec fn decode_bool(s: Seq<u8>) -> Result<(Frame, int), DecodeError> {
    if !has_tag(s, TAG_BOOL) {
        Err(DecodeError::UnknownType)
    } else if s.len() < 2 {
        Err(DecodeError::Incomplete)
    } else if s[1] != BOOL_TRUE && s[1] != BOOL_FALSE {
        Err(DecodeError::UnknownType)
    } else if terminator_at(s, 2) {
        Ok((Frame::Bool(s[1] == BOOL_TRUE), 4))
    } else {
        Err(DecodeError::Incomplete)
    }
}

/// What `s` means as a double.
pub open spec fn decode_double(s: Seq<u8>) -> Result<(Frame, int), DecodeError> {
    match tagged_line(s, TAG_DOUBLE) {
        Err(e) => Err(e),
        Ok((content, used)) => if is_float_text(content) {
            Ok((Frame::Double(content), used))
        } else {
            Err(DecodeError::InvalidFloat)
        },
    }
}

/// What `s` means as an array: a length line, then for a length of -1
/// nothing more, and for a length of zero or more that many frames.
pub open spec fn decode_array(s: Seq<u8>) -> Result<(Frame, int), DecodeError>
    decreases s.len(), 0nat, 1nat,
{
    match tagged_number(s, TAG_ARRAY) {
        Err(e) => Err(e),
        Ok((length, head)) => if length == -1 {
            Ok((Frame::Array(None), head))
        } else if length < -1 {
            Err(DecodeError::InvalidLength)
        } else {
            match decode_all(s.skip(head), length as nat) {
                Err(e) => Err(e),
                Ok((items, used)) => Ok((Frame::Array(Some(items)), head + used)),
            }
        },
    }
}

/// What the start of `s` means as `count` frames in a row: the frames and
/// the bytes they take together. The first frame that fails gives its error.
///
/// A frame never takes more bytes than there are, so the test on `used`
/// always holds; it stands here to keep the definition well founded.
pub open spec fn decode_all(s: Seq<u8>, count: nat) -> Result<(Seq<Frame>, int), DecodeError>
    decreases s.len(), count, 2nat,
{
    if count == 0 {
        Ok((Seq::empty(), 0))
    } else {
        match decode(s) {
            Err(e) => Err(e),
            Ok((first, used)) => if 0 <= used <= s.len() {
                match decode_all(s.skip(used), (count - 1) as nat) {
                    Err(e) => Err(e),
                    Ok((rest, more)) => Ok((seq![first] + rest, used + more)),
                }
            } else {
                Err(DecodeError::Incomplete)
            },
        }
    }
}

/// What the start of `s` means: the frame that the first byte announces, and
/// the number of bytes that it takes. An empty input, or a first byte that
/// is no tag, is of unknown type.
pub open spec fn decode(s: Seq<u8>) -> Result<(Frame, int), DecodeError>
    decreases s.len(), 0nat, 2nat,
{
    if s.len() == 0 {
        Err(DecodeError::UnknownType)
    } else if s[0] == TAG_SIMPLE_STRING {
        decode_simple_string(s)
    } else if s[0] == TAG_ERROR {
        decode_error(s)
    } else if s[0] == TAG_INTEGER {
        decode_integer(s)
    } else if s[0] == TAG_BULK_STRING {
        decode_bulk_string(s)
    } else if s[0] == TAG_ARRAY {
        decode_array(s)
    } else if s[0] == TAG_NULL {
        decode_null(s)
    } else if s[0] == TAG_BOOL {
        decode_bool(s)
    } else if s[0] == TAG_DOUBLE {
        decode_double(s)
    } else {
        Err(DecodeError::UnknownType)
    }
}

/// The input ends just where a frame is due: it is empty, or it is the
/// start of an array whose elements, as far as they are there, are whole,
/// and in which or behind which the next element is due.
///
/// Such an input is of unknown type to [`decode`], which finds nothing where
/// it looks for a tag; yet it is the beginning of a frame like any other
/// that was cut short.
pub open spec fn frame_due(s: Seq<u8>) -> bool
    decreases s.len(), 0nat,
{
    s.len() == 0 || match tagged_number(s, TAG_ARRAY) {
        Ok((length, head)) => length >= 0 && element_due(s.skip(head), length as nat),
        Err(_) => false,
    }
}

/// Of `count` frames in a row, those at the start of `s` are whole and the
/// input ends just where the next one is due.
pub open spec fn element_due(s: Seq<u8>, count: nat) -> bool
    decreases s.len(), count + 1,
{
    count > 0 && match decode(s) {
        Ok((_, used)) => 0 <= used <= s.len() && element_due(s.skip(used), (count - 1) as nat),
        Err(_) => frame_due(s),
    }
}

/// The input is the beginning of a frame and more has to arrive before it
/// can be told which: the frame is incomplete, or a frame is due where the
/// input ends.
pub open spec fn unfinished(s: Seq<u8>) -> bool {
    decode(s) == Err::<(Frame, int), DecodeError>(DecodeError::Incomplete) || frame_due(s)
}

/// The bytes of a sequence with one more frame at its end are the bytes of
/// the sequence followed by those of the frame.
pub proof fn lemma_encode_all_push(items: Seq<Frame>, last: Frame)
    ensures
        encode_all(items.push(last)) == encode_all(items) + encode(last),
    decreases items.len(),
{
    let all = items.push(last);
    if items.len() == 0 {
        assert(all.skip(1) =~= Seq::<Frame>::empty());
        assert(encode_all(all.skip(1)) =~= Seq::<u8>::empty());
        assert(encode_all(all) =~= encode(last));
        assert(encode_all(items) + encode(last) =~= encode(last));
    } else {
        lemma_encode_all_push(items.skip(1), last);
        assert(all.skip(1) =~= items.skip(1).push(last));
        assert(encode_all(all) =~= encode_all(items) + encode(last));
    }
}

} // verus!
