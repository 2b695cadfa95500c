//! The connection: what a server does with the bytes that one client sends.
//!
//! Nothing here reads or writes a socket. The caller owns the transport: it
//! hands each thing that happened on it to [`Connection::step`] and does
//! what the returned action says.

use vstd::prelude::*;
use vstd::slice::{slice_subrange, slice_to_vec};

use crate::command::{
    ascii, fault_text, handle_command, interpret, lemma_shown_text, parse_command, reply_to,
    shown_text, store_after, write_shown,
};
use crate::message::laws::{
    lemma_decoded_is_well_formed, lemma_round_trip, lemma_strict_prefix_is_unfinished,
};
use crate::message::message::{well_formed, Frame, Message};
use crate::message::parse::{is_frame_due, parse_message};
use crate::message::serialise::{serialise_error, write_all};
use crate::message::text::ascii_bytes;
use crate::message::wire::{decode, encode, unfinished, DecodeError};
use crate::store::{store_map, DB};

verus! {

/// The reply to a message and what the store holds afterwards: those of
/// the command that the message asks for, or, if it asks for none, an error
/// message and the store as it was.
pub open spec fn respond(frame: Frame, store: Map<Seq<u8>, Seq<u8>>) -> (
    Frame,
    Map<Seq<u8>, Seq<u8>>,
) {
    match interpret(frame) {
        Ok(request) => (reply_to(request, store), store_after(request, store)),
        Err(fault) => (Frame::Error(fault_text(fault)), store),
    }
}

/// The text that tells a client why its bytes are no frame.
pub open spec fn decode_error_text(e: DecodeError) -> Seq<u8> {
    shown_text(
        ascii_bytes(
            match e {
                DecodeError::UnknownType => "Protocol error: unknown type"@,
                DecodeError::Incomplete => "Protocol error: incomplete frame"@,
                DecodeError::InvalidLength => "Protocol error: invalid length"@,
                DecodeError::InvalidInteger => "Protocol error: invalid integer"@,
                DecodeError::InvalidFloat => "Protocol error: invalid float"@,
            },
        ),
    )
}

/// What becomes of the bytes that a connection has received.
pub struct Outcome {
    /// The replies to send, one after the other.
    pub replies: Seq<u8>,
    /// The bytes to keep until more arrive.
    pub pending: Seq<u8>,
    /// What the store holds afterwards.
    pub store: Map<Seq<u8>, Seq<u8>>,
}

/// What a connection does with the bytes it holds: it answers one frame
/// after the other for as long as a whole frame stands at the front. When
/// what is left is the unfinished start of a frame, or nothing, it is kept
/// for later. When what is left is no frame at all, the client is told so
/// in an error message and the bytes are dropped.
///
/// A frame takes at least one byte and never more than there are, so the
/// test on `used` always holds; it stands here to keep the definition well
/// founded.
pub open spec fn process(buffer: Seq<u8>, store: Map<Seq<u8>, Seq<u8>>) -> Outcome
    decreases buffer.len(),
{
    if buffer.len() == 0 {
        Outcome { replies: Seq::empty(), pending: buffer, store }
    } else {
        match decode(buffer) {
            Ok((frame, used)) => if 0 < used <= buffer.len() {
                let (reply, next) = respond(frame, store);
                let later = process(buffer.skip(used), next);
                Outcome {
                    replies: encode(reply) + later.replies,
                    pending: later.pending,
                    store: later.store,
                }
            } else {
                Outcome { replies: Seq::empty(), pending: buffer, store }
            },
            Err(e) => if unfinished(buffer) {
                Outcome { replies: Seq::empty(), pending: buffer, store }
            } else {
                Outcome {
                    replies: encode(Frame::Error(decode_error_text(e))),
                    pending: Seq::empty(),
                    store,
                }
            },
        }
    }
}

/// A frame that has arrived whole is answered, once, and nothing of it is
/// kept.
pub proof fn lemma_whole_frame_is_answered(f: Frame, store: Map<Seq<u8>, Seq<u8>>)
    requires
        well_formed(f),
    ensures
        process(encode(f), store) == (Outcome {
            replies: encode(respond(f, store).0),
            pending: Seq::empty(),
            store: respond(f, store).1,
        }),
{
    lemma_round_trip(f);
    let buffer = encode(f);
    let after = buffer.skip(buffer.len() as int);
    assert(after =~= Seq::<u8>::empty());
    let (reply, next) = respond(f, store);
    let later = process(after, next);
    assert(encode(reply) + later.replies =~= encode(reply));
}

/// A frame that has arrived in part is waited for: as long as its end is
/// missing, nothing is answered, nothing is dropped and the store is left
/// alone.
pub proof fn lemma_frame_in_part_is_waited_for(f: Frame, n: int, store: Map<Seq<u8>, Seq<u8>>)
    requires
        well_formed(f),
        0 <= n < encode(f).len(),
    ensures
        process(encode(f).take(n), store) == (Outcome {
            replies: Seq::empty(),
            pending: encode(f).take(n),
            store,
        }),
{
    lemma_strict_prefix_is_unfinished(f, n);
}

/// What a connection keeps is always the unfinished start of a frame, or
/// nothing; and as long as no more arrives, there is nothing more to do
/// with it.
pub proof fn lemma_pending_is_unfinished(buffer: Seq<u8>, store: Map<Seq<u8>, Seq<u8>>)
    ensures
        process(buffer, store).pending.len() == 0 || unfinished(process(buffer, store).pending),
        process(process(buffer, store).pending, process(buffer, store).store) == (Outcome {
            replies: Seq::empty(),
            pending: process(buffer, store).pending,
            store: process(buffer, store).store,
        }),
    decreases buffer.len(),
{
    if buffer.len() > 0 {
        lemma_decoded_is_well_formed(buffer);
        if let Ok((frame, used)) = decode(buffer) {
            lemma_pending_is_unfinished(buffer.skip(used), respond(frame, store).1);
        }
    }
}

impl DecodeError {
    /// The text that tells a client of this error. It holds no terminator,
    /// so that it can be sent as an error message.
    pub fn message(&self) -> (r: Vec<u8>)
        ensures
            r@ == decode_error_text(*self),
            well_formed(Frame::Error(r@)),
    {
        proof {
            reveal_strlit("Protocol error: unknown type");
            reveal_strlit("Protocol error: incomplete frame");
            reveal_strlit("Protocol error: invalid length");
            reveal_strlit("Protocol error: invalid integer");
            reveal_strlit("Protocol error: invalid float");
        }
        let text = match self {
            DecodeError::UnknownType => "Protocol error: unknown type",
            DecodeError::Incomplete => "Protocol error: incomplete frame",
            DecodeError::InvalidLength => "Protocol error: invalid length",
            DecodeError::InvalidInteger => "Protocol error: invalid integer",
            DecodeError::InvalidFloat => "Protocol error: invalid float",
        };
        let mut out: Vec<u8> = Vec::new();
        write_shown(&mut out, ascii(text));
        proof {
            lemma_shown_text(ascii_bytes(text@), Seq::empty(), Seq::empty());
            assert(out@ =~= decode_error_text(*self));
        }
        out
    }
}

/// Answers one message: carries out the command that it asks for and
/// appends the reply to the writer, or, if it asks for none, appends an
/// error message that says why and leaves the store as it is.
pub fn handle_message(message: &Message<'_>, db: &mut DB, writer: &mut Vec<u8>)
    ensures
        store_map(*final(db)) == respond(message@, store_map(*old(db))).1,
        final(writer)@ == old(writer)@ + encode(respond(message@, store_map(*old(db))).0),
{
    match parse_command(message) {
        Ok(cmd) => handle_command(&cmd, db, writer),
        Err(e) => {
            let text = e.message();
            serialise_error(text.as_slice(), writer)
        },
    }
}

/// Answers every whole frame at the front of `buffer`, appending the
/// replies to `replies`, and tells how many bytes of the buffer are done
/// with.
fn drain(buffer: &[u8], db: &mut DB, replies: &mut Vec<u8>) -> (done: usize)
    ensures
        done <= buffer@.len(),
        buffer@.skip(done as int) == process(buffer@, store_map(*old(db))).pending,
        final(replies)@ == old(replies)@ + process(buffer@, store_map(*old(db))).replies,
        store_map(*final(db)) == process(buffer@, store_map(*old(db))).store,
{
    let ghost whole = process(buffer@, store_map(*db));
    let mut rest = buffer;
    assert(buffer@.skip(0) =~= buffer@);
    assert(replies@ + whole.replies =~= old(replies)@ + whole.replies);
    loop
        invariant
            rest@.len() <= buffer@.len(),
            rest@ == buffer@.skip(buffer@.len() - rest@.len()),
            whole == process(buffer@, store_map(*old(db))),
            whole.pending == process(rest@, store_map(*db)).pending,
            whole.store == process(rest@, store_map(*db)).store,
            old(replies)@ + whole.replies == replies@ + process(rest@, store_map(*db)).replies,
        decreases rest@.len(),
    {
        if rest.len() == 0 {
            assert(replies@ + Seq::<u8>::empty() =~= replies@);
            return buffer.len();
        }
        let ghost store = store_map(*db);
        let ghost sent = replies@;
        match parse_message(rest) {
            Ok((after, message)) => {
                handle_message(&message, db, replies);
                proof {
                    let reply = respond(message@, store).0;
                    let later = process(after@, store_map(*db));
                    assert(after@ =~= buffer@.skip(buffer@.len() - after@.len()));
                    assert(sent + (encode(reply) + later.replies) =~= (sent + encode(reply))
                        + later.replies);
                }
                rest = after;
            },
            Err(e) => {
                let incomplete = match e {
                    DecodeError::Incomplete => true,
                    _ => false,
                };
                if incomplete || is_frame_due(rest) {
                    assert(replies@ + Seq::<u8>::empty() =~= replies@);
                    return buffer.len() - rest.len();
                }
                let text = e.message();
                serialise_error(text.as_slice(), replies);
                assert(buffer@.skip(buffer@.len() as int) =~= Seq::<u8>::empty());
                return buffer.len();
            },
        }
    }
}

/// What happened on the transport.
pub enum Event<'a> {
    /// A read gave these bytes. None at all means that the peer has closed.
    Received(&'a [u8]),
    /// A read or a write failed.
    Failed,
}

/// What the caller is to do next.
#[derive(Debug, PartialEq, Eq)]
pub enum Action {
    /// Read more.
    Read,
    /// Write these bytes, then read more.
    Write(Vec<u8>),
    /// Close the transport and stop.
    Close,
}

/// One client's connection: the bytes that have arrived and are not yet
/// answered, and whether the connection has come to its end.
pub struct Connection {
    pub buffer: Vec<u8>,
    pub closed: bool,
}

impl Connection {
    /// A connection that has just been accepted: open, with nothing
    /// received.
    pub fn new() -> (c: Connection)
        ensures
            c.buffer@ == Seq::<u8>::empty(),
            !c.closed,
    {
        Connection { buffer: Vec::new(), closed: false }
    }

    /// Takes one event and says what to do next.
    ///
    /// A closed connection stays closed, whatever happens. An open one
    /// closes when the peer has closed or the transport has failed; the
    /// store is not touched then. Bytes that arrive are put behind those
    /// that are still waiting, and the whole is worked off as
    /// [`process`] says: the replies, if there are any, are to be written,
    /// what is left waits for more, and the connection stays open, also
    /// when a request was malformed.
    pub fn step(&mut self, event: Event<'_>, db: &mut DB) -> (action: Action)
        ensures
            match event {
                Event::Received(bytes) if !old(self).closed && bytes@.len() > 0 => {
                    let outcome = process(old(self).buffer@ + bytes@, store_map(*old(db)));
                    &&& !final(self).closed
                    &&& final(self).buffer@ == outcome.pending
                    &&& store_map(*final(db)) == outcome.store
                    &&& if outcome.replies.len() == 0 {
                        action is Read
                    } else {
                        action matches Action::Write(replies) && replies@ == outcome.replies
                    }
                },
                _ => {
                    &&& final(self).closed
                    &&& final(self).buffer@ == old(self).buffer@
                    &&& store_map(*final(db)) == store_map(*old(db))
                    &&& action is Close
                },
            },
    {
        if self.closed {
            return Action::Close;
        }
        match event {
            Event::Failed => {
                self.closed = true;
                Action::Close
            },
            Event::Received(bytes) => {
                if bytes.len() == 0 {
                    self.closed = true;
                    return Action::Close;
                }
                write_all(&mut self.buffer, bytes);
                let mut replies: Vec<u8> = Vec::new();
                let done = drain(self.buffer.as_slice(), db, &mut replies);
                let kept = slice_subrange(self.buffer.as_slice(), done, self.buffer.len());
                let pending = slice_to_vec(kept);
                assert(pending@ =~= self.buffer@.skip(done as int));
                self.buffer = pending;
                assert(replies@ =~= process(
                    old(self).buffer@ + bytes@,
                    store_map(*old(db)),
                ).replies);
                if replies.len() == 0 {
                    Action::Read
                } else {
                    Action::Write(replies)
                }
            },
        }
    }
}

} // verus!
