//! The message: one protocol unit, as data and as a mathematical value.

use vstd::prelude::*;
use super::text::{contains_terminator, is_float_text};

verus! {

/// One protocol unit. Its byte payloads are borrowed: a message that was
/// decoded points into the input it was decoded from.
///
/// A `Double` carries its decimal literal as it stands on the wire; turning
/// the literal into a machine float is left to the caller.
#[derive(Debug, PartialEq, Eq)]
pub enum Message<'a> {
    SimpleString(&'a [u8]),
    Error(&'a [u8]),
    Integer(isize),
    BulkString(Option<&'a [u8]>),
    Array(Option<Vec<Message<'a>>>),
    Null,
    Bool(bool),
    Double(&'a [u8]),
}

/// The mathematical value of a message: what the contracts speak of.
pub enum Frame {
    SimpleString(Seq<u8>),
    Error(Seq<u8>),
    Integer(int),
    BulkString(Option<Seq<u8>>),
    Array(Option<Seq<Frame>>),
    Null,
    Bool(bool),
    Double(Seq<u8>),
}

/// The frame can stand on the wire: line contents hold no terminator,
/// numbers and lengths fit the machine, a double is a decimal literal, and
/// the same holds of every element of an array.
pub open spec fn well_formed(f: Frame) -> bool
    decreases f,
{
    match f {
        Frame::SimpleString(s) => !contains_terminator(s),
        Frame::Error(s) => !contains_terminator(s),
        Frame::Integer(v) => isize::MIN <= v <= isize::MAX,
        Frame::BulkString(Some(b)) => b.len() <= isize::MAX,
        Frame::BulkString(None) => true,
        Frame::Array(Some(items)) => {
            &&& items.len() <= isize::MAX
            &&& forall|i: int| 0 <= i < items.len() ==> well_formed(#[trigger] items[i])
        },
        Frame::Array(None) => true,
        Frame::Null => true,
        Frame::Bool(_) => true,
        Frame::Double(t) => is_float_text(t),
    }
}

/// The values of a sequence of messages, in order.
pub open spec fn frames_of(items: Seq<Message<'_>>) -> Seq<Frame>
    decreases items,
{
    Seq::new(
        items.len(),
        |i: int|
            if 0 <= i < items.len() {
                items[i].frame()
            } else {
                Frame::Null
            },
    )
}

impl<'a> Message<'a> {
    /// The value of this message.
    pub open spec fn frame(self) -> Frame
        decreases self,
    {
        match self {
            Message::SimpleString(s) => Frame::SimpleString(s@),
            Message::Error(s) => Frame::Error(s@),
            Message::Integer(v) => Frame::Integer(v as int),
            Message::BulkString(Some(b)) => Frame::BulkString(Some(b@)),
            Message::BulkString(None) => Frame::BulkString(None),
            Message::Array(Some(items)) => Frame::Array(Some(frames_of(items@))),
            Message::Array(None) => Frame::Array(None),
            Message::Null => Frame::Null,
            Message::Bool(b) => Frame::Bool(b),
            Message::Double(t) => Frame::Double(t@),
        }
    }

    /// The payload of a non-null bulk string; `None` for every other message.
    pub fn as_bulk_string(&self) -> (r: Option<&'a [u8]>)
        ensures
            match self.frame() {
                Frame::BulkString(Some(b)) => r.is_some() && r.unwrap()@ == b,
                _ => r.is_none(),
            },
    {
        match self {
            Message::BulkString(Some(string)) => Some(*string),
            _ => None,
        }
    }

    /// The elements of a non-null array; `None` for every other message.
    pub fn as_array(&self) -> (r: Option<&[Message<'a>]>)
        ensures
            match self.frame() {
                Frame::Array(Some(items)) => r.is_some() && frames_of(r.unwrap()@) == items,
                _ => r.is_none(),
            },
    {
        match self {
            Message::Array(Some(messages)) => Some(messages.as_slice()),
            _ => None,
        }
    }
}

impl<'a> View for Message<'a> {
    type V = Frame;

    open spec fn view(&self) -> Frame {
        self.frame()
    }
}

} // verus!
