//! Encoding: from messages to bytes.
//!
//! Every function appends to the writer and leaves what it already holds
//! untouched; none of them can fail.

use vstd::prelude::*;
use vstd::utf8::{decode_utf8, valid_utf8};
use super::message::{frames_of, Frame, Message};
use super::text::{decimal, terminator, CR, LF, MINUS};
use super::wire::{
    encode, encode_all, lemma_encode_all_push, BOOL_FALSE, BOOL_TRUE, TAG_ARRAY, TAG_BOOL,
    TAG_BULK_STRING, TAG_DOUBLE, TAG_ERROR, TAG_INTEGER, TAG_NULL, TAG_SIMPLE_STRING,
};

verus! {

/// What `String::from_utf8_lossy` makes of a byte string: its text, with
/// the replacement character in the place of every ill-formed UTF-8
/// sequence.
pub uninterp spec fn utf8_lossy(bytes: Seq<u8>) -> Seq<char>;

/// `String::from_utf8_lossy`, with the result copied into a `String` of its
/// own. The text is a function of the bytes alone, and bytes that are valid
/// UTF-8 give the text that they encode; nothing more is claimed of it
/// here.
#[verifier::external_body]
fn string_from_utf8_lossy(bytes: &[u8]) -> (r: String)
    ensures
        r@ == utf8_lossy(bytes@),
        valid_utf8(bytes@) ==> r@ == decode_utf8(bytes@),
{
    String::from_utf8_lossy(bytes).into_owned()
}

/// Appends `bytes` to the writer.
pub(crate) fn write_all(writer: &mut Vec<u8>, bytes: &[u8])
    ensures
        final(writer)@ == old(writer)@ + bytes@,
{
    let mut k: usize = 0;
    while k < bytes.len()
        invariant
            k <= bytes@.len(),
            writer@ == old(writer)@ + bytes@.take(k as int),
        decreases bytes@.len() - k,
    {
        writer.push(bytes[k]);
        assert(bytes@.take(k + 1) =~= bytes@.take(k as int).push(bytes@[k as int]));
        k += 1;
    }
    assert(bytes@.take(k as int) =~= bytes@);
}

/// Appends the frame terminator.
fn write_terminator(writer: &mut Vec<u8>)
    ensures
        final(writer)@ == old(writer)@ + terminator(),
{
    writer.push(CR);
    writer.push(LF);
    assert(writer@ =~= old(writer)@ + terminator());
}

/// Appends the decimal digits of `n`.
fn write_decimal(writer: &mut Vec<u8>, n: usize)
    ensures
        final(writer)@ == old(writer)@ + decimal(n as nat),
    decreases n,
{
    if n >= 10 {
        write_decimal(writer, n / 10);
    }
    writer.push(48 + (n % 10) as u8);
    assert(writer@ =~= old(writer)@ + decimal(n as nat));
}

/// Appends a simple string: `+`, the content, the terminator.
pub fn serialise_simple_string(string: &[u8], writer: &mut Vec<u8>)
    ensures
        final(writer)@ == old(writer)@ + encode(Frame::SimpleString(string@)),
{
    writer.push(TAG_SIMPLE_STRING);
    write_all(writer, string);
    write_terminator(writer);
    assert(writer@ =~= old(writer)@ + encode(Frame::SimpleString(string@)));
}

/// Appends an error message: `-`, the content, the terminator.
pub fn serialise_error(error: &[u8], writer: &mut Vec<u8>)
    ensures
        final(writer)@ == old(writer)@ + encode(Frame::Error(error@)),
{
    writer.push(TAG_ERROR);
    write_all(writer, error);
    write_terminator(writer);
    assert(writer@ =~= old(writer)@ + encode(Frame::Error(error@)));
}

/// Appends an integer: `:`, the decimal text of `n` with a minus sign if it
/// is negative, the terminator.
pub fn serialise_integer(n: isize, writer: &mut Vec<u8>)
    ensures
        final(writer)@ == old(writer)@ + encode(Frame::Integer(n as int)),
{
    writer.push(TAG_INTEGER);
    if n < 0 {
        writer.push(MINUS);
        let magnitude: usize = (-(n + 1)) as usize + 1;
        write_decimal(writer, magnitude);
    } else {
        write_decimal(writer, n as usize);
    }
    write_terminator(writer);
    assert(writer@ =~= old(writer)@ + encode(Frame::Integer(n as int)));
}

/// Appends a bulk string: `$`, the length in decimal, the terminator, the
/// bytes as they are, the terminator; for the null bulk string `$-1` and the
/// terminator.
pub fn serialise_bulk_string(string: &Option<&[u8]>, writer: &mut Vec<u8>)
    ensures
        final(writer)@ == old(writer)@ + encode(
            Frame::BulkString(
                match *string {
                    Some(b) => Some(b@),
                    None => None,
                },
            ),
        ),
{
    writer.push(TAG_BULK_STRING);
    match string {
        Some(bytes) => {
            write_decimal(writer, bytes.len());
            write_terminator(writer);
            write_all(writer, bytes);
            write_terminator(writer);
            assert(writer@ =~= old(writer)@ + encode(Frame::BulkString(Some(bytes@))));
        },
        None => {
            writer.push(MINUS);
            writer.push(49);
            write_terminator(writer);
            assert(writer@ =~= old(writer)@ + encode(Frame::BulkString(None)));
        },
    }
}

/// Appends a null: `_` and the terminator.
pub fn serialise_null(writer: &mut Vec<u8>)
    ensures
        final(writer)@ == old(writer)@ + encode(Frame::Null),
{
    writer.push(TAG_NULL);
    write_terminator(writer);
    assert(writer@ =~= old(writer)@ + encode(Frame::Null));
}

/// Appends a boolean: `#`, `t` or `f`, the terminator.
pub fn serialise_bool(b: bool, writer: &mut Vec<u8>)
    ensures
        final(writer)@ == old(writer)@ + encode(Frame::Bool(b)),
{
    writer.push(TAG_BOOL);
    if b {
        writer.push(BOOL_TRUE);
    } else {
        writer.push(BOOL_FALSE);
    }
    write_terminator(writer);
    assert(writer@ =~= old(writer)@ + encode(Frame::Bool(b)));
}

/// Appends a double: `,`, the literal as it is, the terminator.
pub fn serialise_double(literal: &[u8], writer: &mut Vec<u8>)
    ensures
        final(writer)@ == old(writer)@ + encode(Frame::Double(literal@)),
{
    writer.push(TAG_DOUBLE);
    write_all(writer, literal);
    write_terminator(writer);
    assert(writer@ =~= old(writer)@ + encode(Frame::Double(literal@)));
}

/// The value of an optional array of messages.
pub open spec fn array_frame(array: Option<Vec<Message<'_>>>) -> Frame {
    match array {
        Some(items) => Frame::Array(Some(frames_of(items@))),
        None => Frame::Array(None),
    }
}

/// Appends an array: `*`, the number of elements in decimal, the terminator,
/// then each element in turn; for the null array `*-1` and the terminator.
pub fn serialise_array(array: &Option<Vec<Message<'_>>>, writer: &mut Vec<u8>)
    ensures
        final(writer)@ == old(writer)@ + encode(array_frame(*array)),
    decreases *array,
{
    writer.push(TAG_ARRAY);
    match array {
        Some(items) => {
            write_decimal(writer, items.len());
            write_terminator(writer);
            let ghost head = writer@;
            let ghost frames = frames_of(items@);
            let mut k: usize = 0;
            assert(frames.take(0) =~= Seq::<Frame>::empty());
            assert(head + encode_all(frames.take(0)) =~= head);
            while k < items.len()
                invariant
                    k <= items@.len(),
                    *array == Some(*items),
                    frames == frames_of(items@),
                    writer@ == head + encode_all(frames.take(k as int)),
                decreases items@.len() - k,
            {
                proof {
                    assert(decreases_to!(*items => items[k as int]));
                    assert(decreases_to!(*array => array->0));
                }
                serialise_message(&items[k], writer);
                proof {
                    assert(frames.take(k + 1) =~= frames.take(k as int).push(items@[k as int]@));
                    lemma_encode_all_push(frames.take(k as int), items@[k as int]@);
                    assert(writer@ =~= head + encode_all(frames.take(k + 1)));
                }
                k += 1;
            }
            assert(frames.take(k as int) =~= frames);
            assert(writer@ =~= old(writer)@ + encode(array_frame(*array)));
        },
        None => {
            writer.push(MINUS);
            writer.push(49);
            write_terminator(writer);
            assert(writer@ =~= old(writer)@ + encode(Frame::Array(None)));
        },
    }
}

/// Appends the bytes of a message to the writer: the one encoding that the
/// message has.
pub fn serialise_message(message: &Message<'_>, writer: &mut Vec<u8>)
    ensures
        final(writer)@ == old(writer)@ + encode(message@),
    decreases *message,
{
    match message {
        Message::SimpleString(string) => serialise_simple_string(string, writer),
        Message::Error(error) => serialise_error(error, writer),
        Message::Integer(n) => serialise_integer(*n, writer),
        Message::BulkString(string) => serialise_bulk_string(string, writer),
        Message::Array(array) => serialise_array(array, writer),
        Message::Null => serialise_null(writer),
        Message::Bool(b) => serialise_bool(*b, writer),
        Message::Double(literal) => serialise_double(literal, writer),
    }
}

impl<'a> Message<'a> {
    /// Appends the bytes of this message to the writer.
    pub fn serialise(&self, writer: &mut Vec<u8>)
        ensures
            final(writer)@ == old(writer)@ + encode(self@),
    {
        serialise_message(self, writer)
    }

    /// The bytes of this message as text, every ill-formed UTF-8 sequence
    /// replaced. Where the bytes are valid UTF-8, the text is the one that
    /// they encode.
    pub fn to_string(&self) -> (r: String)
        ensures
            r@ == utf8_lossy(encode(self@)),
            valid_utf8(encode(self@)) ==> r@ == decode_utf8(encode(self@)),
    {
        let mut buf: Vec<u8> = Vec::new();
        self.serialise(&mut buf);
        assert(buf@ =~= encode(self@));
        string_from_utf8_lossy(buf.as_slice())
    }
}

} // verus!

