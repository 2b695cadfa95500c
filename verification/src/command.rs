//! Commands: what a request asks for, and what the store answers.

use vstd::prelude::*;
use vstd::slice::{slice_subrange, slice_to_vec};

use crate::message::message::{frames_of, well_formed, Frame, Message};
use crate::message::serialise::serialise_bulk_string;
use crate::message::text::{ascii_bytes, contains_terminator, lemma_no_carriage_return};
use crate::message::wire::encode;
use crate::store::{store_get, store_insert, store_map, DB};

verus! {

/// One request, ready to be carried out. Its payloads point into the
/// message that it was read from.
#[derive(Debug, PartialEq, Eq)]
#[allow(non_camel_case_types)]
pub enum Command<'a> {
    PING,
    ECHO(&'a [u8]),
    SET(&'a [u8], &'a [u8]),
    GET(&'a [u8]),
}

/// The value of a command.
#[allow(non_camel_case_types)]
pub enum Request {
    PING,
    ECHO(Seq<u8>),
    SET(Seq<u8>, Seq<u8>),
    GET(Seq<u8>),
}

impl<'a> View for Command<'a> {
    type V = Request;

    open spec fn view(&self) -> Request {
        match *self {
            Command::PING => Request::PING,
            Command::ECHO(s) => Request::ECHO(s@),
            Command::SET(k, v) => Request::SET(k@, v@),
            Command::GET(k) => Request::GET(k@),
        }
    }
}

/// The commands that the server knows.
#[derive(Debug, Clone, Copy, PartialEq, Eq)]
#[allow(non_camel_case_types)]
pub enum CommandName {
    PING,
    ECHO,
    SET,
    GET,
}

/// What is wrong with the arguments of a command.
#[derive(Debug, Clone, Copy, PartialEq, Eq)]
pub enum ArgumentFault {
    /// The command takes another number of arguments.
    WrongCount(CommandName),
    /// An argument is not a bulk string, or is the null bulk string.
    NotBulkString,
}

/// Why a message is not a command.
#[derive(Debug, PartialEq, Eq)]
pub enum CommandError {
    /// The message is not an array, or an empty one, or its first element is
    /// not a bulk string with a payload.
    InvalidFormat,
    /// The name, as it was sent, is not that of a command.
    UnknownCommand(Vec<u8>),
    /// The command is known and its arguments are not what it takes.
    InvalidArguments(ArgumentFault),
}

/// The value of a command error.
pub enum Fault {
    InvalidFormat,
    UnknownCommand(Seq<u8>),
    InvalidArguments(ArgumentFault),
}

impl View for CommandError {
    type V = Fault;

    open spec fn view(&self) -> Fault {
        match *self {
            CommandError::InvalidFormat => Fault::InvalidFormat,
            CommandError::UnknownCommand(name) => Fault::UnknownCommand(name@),
            CommandError::InvalidArguments(fault) => Fault::InvalidArguments(fault),
        }
    }
}

/// The upper-case form of an ASCII letter; every other byte as it is.
pub open spec fn upper(b: u8) -> u8 {
    if 97 <= b <= 122 {
        (b - 32) as u8
    } else {
        b
    }
}

/// `name` is the upper-case word `word`, in whatever case.
pub open spec fn spells(name: Seq<u8>, word: Seq<char>) -> bool {
    &&& name.len() == word.len()
    &&& forall|i: int| 0 <= i < name.len() ==> upper(#[trigger] name[i]) == word[i] as u8
}

/// The word by which a command is called.
pub open spec fn command_word(c: CommandName) -> Seq<char> {
    match c {
        CommandName::PING => "PING"@,
        CommandName::ECHO => "ECHO"@,
        CommandName::SET => "SET"@,
        CommandName::GET => "GET"@,
    }
}

/// The command that `name` calls, in whatever case it is written.
pub open spec fn command_named(name: Seq<u8>) -> Option<CommandName> {
    if spells(name, command_word(CommandName::PING)) {
        Some(CommandName::PING)
    } else if spells(name, command_word(CommandName::ECHO)) {
        Some(CommandName::ECHO)
    } else if spells(name, command_word(CommandName::SET)) {
        Some(CommandName::SET)
    } else if spells(name, command_word(CommandName::GET)) {
        Some(CommandName::GET)
    } else {
        None
    }
}

/// The number of arguments that a command takes.
pub open spec fn arity(c: CommandName) -> nat {
    match c {
        CommandName::PING => 0,
        CommandName::ECHO => 1,
        CommandName::SET => 2,
        CommandName::GET => 1,
    }
}

/// The payload of a bulk string that has one.
pub open spec fn bulk_payload(f: Frame) -> Option<Seq<u8>> {
    match f {
        Frame::BulkString(Some(b)) => Some(b),
        _ => None,
    }
}

/// The request that a command makes of its arguments: their number has to
/// be the command's arity, and each has to be a bulk string with a payload.
/// The number is looked at first.
pub open spec fn with_arguments(c: CommandName, arguments: Seq<Frame>) -> Result<Request, Fault> {
    if arguments.len() != arity(c) {
        Err(Fault::InvalidArguments(ArgumentFault::WrongCount(c)))
    } else if exists|i: int|
        0 <= i < arguments.len() && bulk_payload(#[trigger] arguments[i]) is None {
        Err(Fault::InvalidArguments(ArgumentFault::NotBulkString))
    } else {
        Ok(
            match c {
                CommandName::PING => Request::PING,
                CommandName::ECHO => Request::ECHO(bulk_payload(arguments[0])->0),
                CommandName::SET => Request::SET(
                    bulk_payload(arguments[0])->0,
                    bulk_payload(arguments[1])->0,
                ),
                CommandName::GET => Request::GET(bulk_payload(arguments[0])->0),
            },
        )
    }
}

/// What a message asks for: it has to be an array with at least one
/// element, the first a bulk string that names a command, the others that
/// command's arguments.
pub open spec fn interpret(f: Frame) -> Result<Request, Fault> {
    match f {
        Frame::Array(Some(items)) => if items.len() == 0 {
            Err(Fault::InvalidFormat)
        } else {
            match bulk_payload(items[0]) {
                None => Err(Fault::InvalidFormat),
                Some(name) => match command_named(name) {
                    None => Err(Fault::UnknownCommand(name)),
                    Some(c) => with_arguments(c, items.skip(1)),
                },
            }
        },
        _ => Err(Fault::InvalidFormat),
    }
}

/// The result `r` of the interpreter is what `meaning` says.
pub open spec fn interpreted<'a>(
    r: Result<Command<'a>, CommandError>,
    meaning: Result<Request, Fault>,
) -> bool {
    match meaning {
        Ok(request) => r matches Ok(command) && command@ == request,
        Err(fault) => r matches Err(e) && e@ == fault,
    }
}

/// The reply to a request, given what the store holds when it arrives.
pub open spec fn reply_to(request: Request, store: Map<Seq<u8>, Seq<u8>>) -> Frame {
    match request {
        Request::PING => Frame::BulkString(Some(ascii_bytes("PONG"@))),
        Request::ECHO(s) => Frame::BulkString(Some(s)),
        Request::SET(_, _) => Frame::BulkString(Some(ascii_bytes("OK"@))),
        Request::GET(k) => if store.contains_key(k) {
            Frame::BulkString(Some(store[k]))
        } else {
            Frame::BulkString(None)
        },
    }
}

/// What the store holds once a request has been carried out.
pub open spec fn store_after(request: Request, store: Map<Seq<u8>, Seq<u8>>) -> Map<
    Seq<u8>,
    Seq<u8>,
> {
    match request {
        Request::SET(k, v) => store.insert(k, v),
        _ => store,
    }
}

/// What the store holds once requests have been carried out one after the
/// other.
pub open spec fn store_after_all(requests: Seq<Request>, store: Map<Seq<u8>, Seq<u8>>) -> Map<
    Seq<u8>,
    Seq<u8>,
>
    decreases requests.len(),
{
    if requests.len() == 0 {
        store
    } else {
        store_after(requests.last(), store_after_all(requests.drop_last(), store))
    }
}

/// The requests that set each key of `entries` to its value, in the order
/// of `entries`.
pub open spec fn sets_of(entries: Seq<(Seq<u8>, Seq<u8>)>) -> Seq<Request> {
    Seq::new(entries.len(), |i: int| Request::SET(entries[i].0, entries[i].1))
}

/// A byte as it is shown in an error message: itself if it is printable
/// ASCII, a question mark otherwise.
pub open spec fn shown(b: u8) -> u8 {
    if 32 <= b <= 126 {
        b
    } else {
        63
    }
}

/// A text as it is shown in an error message, byte by byte.
pub open spec fn shown_text(s: Seq<u8>) -> Seq<u8> {
    Seq::new(s.len(), |i: int| shown(s[i]))
}

/// The text that tells a client of a command error. An unknown name is
/// quoted as it was sent, but for the bytes that are not printable.
pub open spec fn fault_text(fault: Fault) -> Seq<u8> {
    match fault {
        Fault::InvalidFormat => shown_text(ascii_bytes("The message format is invalid"@)),
        Fault::UnknownCommand(name) => shown_text(ascii_bytes("Unknown command: "@)) + shown_text(
            name,
        ),
        Fault::InvalidArguments(ArgumentFault::WrongCount(c)) => shown_text(
            ascii_bytes("Invalid arguments: Wrong number of arguments for the "@),
        ) + shown_text(ascii_bytes(command_word(c))) + shown_text(ascii_bytes(" command"@)),
        Fault::InvalidArguments(ArgumentFault::NotBulkString) => shown_text(
            ascii_bytes("Invalid arguments: Argument not a BulkString"@),
        ),
    }
}

/// A shown text holds no terminator, and neither do shown texts in a row.
pub proof fn lemma_shown_text(a: Seq<u8>, b: Seq<u8>, c: Seq<u8>)
    ensures
        !contains_terminator(shown_text(a)),
        !contains_terminator(shown_text(a) + shown_text(b)),
        !contains_terminator(shown_text(a) + shown_text(b) + shown_text(c)),
{
    let one = shown_text(a);
    let two = shown_text(a) + shown_text(b);
    let three = shown_text(a) + shown_text(b) + shown_text(c);
    assert forall|i: int| 0 <= i < one.len() implies #[trigger] one[i] != 13 by {}
    assert forall|i: int| 0 <= i < two.len() implies #[trigger] two[i] != 13 by {}
    assert forall|i: int| 0 <= i < three.len() implies #[trigger] three[i] != 13 by {}
    lemma_no_carriage_return(one);
    lemma_no_carriage_return(two);
    lemma_no_carriage_return(three);
}

/// The text of a command error can stand in an error message.
pub proof fn lemma_fault_text_is_well_formed(fault: Fault)
    ensures
        well_formed(Frame::Error(fault_text(fault))),
{
    let e = Seq::<u8>::empty();
    match fault {
        Fault::InvalidFormat => lemma_shown_text(
            ascii_bytes("The message format is invalid"@),
            e,
            e,
        ),
        Fault::UnknownCommand(name) => lemma_shown_text(
            ascii_bytes("Unknown command: "@),
            name,
            e,
        ),
        Fault::InvalidArguments(ArgumentFault::WrongCount(c)) => lemma_shown_text(
            ascii_bytes("Invalid arguments: Wrong number of arguments for the "@),
            ascii_bytes(command_word(c)),
            ascii_bytes(" command"@),
        ),
        Fault::InvalidArguments(ArgumentFault::NotBulkString) => lemma_shown_text(
            ascii_bytes("Invalid arguments: Argument not a BulkString"@),
            e,
            e,
        ),
    }
}

/// The upper-case form of an ASCII letter; every other byte as it is.
fn to_upper(b: u8) -> (r: u8)
    ensures
        r == upper(b),
{
    if b >= 97 && b <= 122 {
        b - 32
    } else {
        b
    }
}

/// The bytes of an ASCII text.
pub(crate) fn ascii<'a>(text: &'a str) -> (r: &'a [u8])
    requires
        text.is_ascii(),
    ensures
        r@ == ascii_bytes(text@),
{
    let bytes = text.as_bytes();
    assert(bytes@ =~= ascii_bytes(text@));
    bytes
}

/// Whether `name` is the upper-case ASCII word `word`, in whatever case.
fn is_word(name: &[u8], word: &str) -> (r: bool)
    requires
        word.is_ascii(),
    ensures
        r == spells(name@, word@),
{
    let letters = ascii(word);
    if name.len() != letters.len() {
        return false;
    }
    let mut k: usize = 0;
    while k < name.len()
        invariant
            k <= name@.len(),
            name@.len() == word@.len(),
            letters@ == ascii_bytes(word@),
            forall|i: int| 0 <= i < k ==> upper(#[trigger] name@[i]) == word@[i] as u8,
        decreases name@.len() - k,
    {
        if to_upper(name[k]) != letters[k] {
            return false;
        }
        k += 1;
    }
    true
}

/// The command that `name` calls, if it calls one.
fn lookup(name: &[u8]) -> (r: Option<CommandName>)
    ensures
        r == command_named(name@),
{
    proof {
        reveal_strlit("PING");
        reveal_strlit("ECHO");
        reveal_strlit("SET");
        reveal_strlit("GET");
    }
    if is_word(name, "PING") {
        Some(CommandName::PING)
    } else if is_word(name, "ECHO") {
        Some(CommandName::ECHO)
    } else if is_word(name, "SET") {
        Some(CommandName::SET)
    } else if is_word(name, "GET") {
        Some(CommandName::GET)
    } else {
        None
    }
}

/// The payload of the argument at `at`, which has to be a bulk string with
/// a payload.
fn argument<'a>(arguments: &[Message<'a>], at: usize) -> (r: Result<&'a [u8], CommandError>)
    requires
        at < arguments@.len(),
    ensures
        match bulk_payload(frames_of(arguments@)[at as int]) {
            Some(b) => r matches Ok(bytes) && bytes@ == b,
            None => r matches Err(e) && e@ == Fault::InvalidArguments(
                ArgumentFault::NotBulkString,
            ),
        },
{
    match arguments[at].as_bulk_string() {
        Some(bytes) => Ok(bytes),
        None => Err(CommandError::InvalidArguments(ArgumentFault::NotBulkString)),
    }
}

/// `PING` takes no argument.
pub fn parse_ping<'a>(arguments: &[Message<'a>]) -> (r: Result<Command<'a>, CommandError>)
    ensures
        interpreted(r, with_arguments(CommandName::PING, frames_of(arguments@))),
{
    if arguments.len() != 0 {
        return Err(CommandError::InvalidArguments(ArgumentFault::WrongCount(CommandName::PING)));
    }
    Ok(Command::PING)
}

/// `ECHO` takes one argument, the bytes to send back.
pub fn parse_echo<'a>(arguments: &[Message<'a>]) -> (r: Result<Command<'a>, CommandError>)
    ensures
        interpreted(r, with_arguments(CommandName::ECHO, frames_of(arguments@))),
{
    if arguments.len() != 1 {
        return Err(CommandError::InvalidArguments(ArgumentFault::WrongCount(CommandName::ECHO)));
    }
    match argument(arguments, 0) {
        Err(e) => Err(e),
        Ok(echo_string) => Ok(Command::ECHO(echo_string)),
    }
}

/// `SET` takes two arguments, the key and the value.
pub fn parse_set<'a>(arguments: &[Message<'a>]) -> (r: Result<Command<'a>, CommandError>)
    ensures
        interpreted(r, with_arguments(CommandName::SET, frames_of(arguments@))),
{
    if arguments.len() != 2 {
        return Err(CommandError::InvalidArguments(ArgumentFault::WrongCount(CommandName::SET)));
    }
    match argument(arguments, 0) {
        Err(e) => Err(e),
        Ok(key) => match argument(arguments, 1) {
            Err(e) => Err(e),
            Ok(value) => Ok(Command::SET(key, value)),
        },
    }
}

/// `GET` takes one argument, the key.
pub fn parse_get<'a>(arguments: &[Message<'a>]) -> (r: Result<Command<'a>, CommandError>)
    ensures
        interpreted(r, with_arguments(CommandName::GET, frames_of(arguments@))),
{
    if arguments.len() != 1 {
        return Err(CommandError::InvalidArguments(ArgumentFault::WrongCount(CommandName::GET)));
    }
    match argument(arguments, 0) {
        Err(e) => Err(e),
        Ok(key) => Ok(Command::GET(key)),
    }
}

/// Reads a command out of a message.
///
/// The message has to be a non-null array with at least one element, and
/// its first element a bulk string with a payload: otherwise
/// `InvalidFormat`. The payload is matched against `PING`, `ECHO`, `SET`
/// and `GET` without regard to case: if it is none of them,
/// `UnknownCommand` with the name as it was sent. The other elements are the
/// arguments: `InvalidArguments` if their number is not what the command
/// takes, or, the number being right, if one of them is not a bulk string
/// with a payload.
pub fn parse_command<'a>(message: &Message<'a>) -> (r: Result<Command<'a>, CommandError>)
    ensures
        interpreted(r, interpret(message@)),
{
    let messages = match message.as_array() {
        Some(messages) => messages,
        None => {
            return Err(CommandError::InvalidFormat);
        },
    };
    if messages.len() == 0 {
        return Err(CommandError::InvalidFormat);
    }
    let name = match messages[0].as_bulk_string() {
        Some(name) => name,
        None => {
            return Err(CommandError::InvalidFormat);
        },
    };
    let arguments = slice_subrange(messages, 1, messages.len());
    assert(frames_of(arguments@) =~= frames_of(messages@).skip(1));
    match lookup(name) {
        Some(CommandName::PING) => parse_ping(arguments),
        Some(CommandName::ECHO) => parse_echo(arguments),
        Some(CommandName::SET) => parse_set(arguments),
        Some(CommandName::GET) => parse_get(arguments),
        None => Err(CommandError::UnknownCommand(slice_to_vec(name))),
    }
}

/// Appends `bytes` to the text as they are shown in an error message.
pub(crate) fn write_shown(text: &mut Vec<u8>, bytes: &[u8])
    ensures
        final(text)@ == old(text)@ + shown_text(bytes@),
{
    let mut k: usize = 0;
    while k < bytes.len()
        invariant
            k <= bytes@.len(),
            text@ == old(text)@ + shown_text(bytes@.take(k as int)),
        decreases bytes@.len() - k,
    {
        let b = bytes[k];
        text.push(if b >= 32 && b <= 126 { b } else { 63 });
        assert(shown_text(bytes@.take(k + 1)) =~= shown_text(bytes@.take(k as int)).push(shown(b)));
        k += 1;
    }
    assert(bytes@.take(k as int) =~= bytes@);
}

impl CommandName {
    /// The word by which the command is called.
    pub fn word(&self) -> (r: &'static str)
        ensures
            r@ == command_word(*self),
            r.is_ascii(),
    {
        proof {
            reveal_strlit("PING");
            reveal_strlit("ECHO");
            reveal_strlit("SET");
            reveal_strlit("GET");
        }
        match self {
            CommandName::PING => "PING",
            CommandName::ECHO => "ECHO",
            CommandName::SET => "SET",
            CommandName::GET => "GET",
        }
    }
}

impl CommandError {
    /// The text that tells a client of this error. It holds no terminator,
    /// so that it can be sent as an error message.
    pub fn message(&self) -> (r: Vec<u8>)
        ensures
            r@ == fault_text(self@),
            well_formed(Frame::Error(r@)),
    {
        let mut text: Vec<u8> = Vec::new();
        proof {
            reveal_strlit("The message format is invalid");
            reveal_strlit("Unknown command: ");
            reveal_strlit("Invalid arguments: Wrong number of arguments for the ");
            reveal_strlit(" command");
            reveal_strlit("Invalid arguments: Argument not a BulkString");
            lemma_fault_text_is_well_formed(self@);
        }
        match self {
            CommandError::InvalidFormat => {
                write_shown(&mut text, ascii("The message format is invalid"));
            },
            CommandError::UnknownCommand(name) => {
                write_shown(&mut text, ascii("Unknown command: "));
                write_shown(&mut text, name.as_slice());
            },
            CommandError::InvalidArguments(ArgumentFault::WrongCount(c)) => {
                write_shown(
                    &mut text,
                    ascii("Invalid arguments: Wrong number of arguments for the "),
                );
                write_shown(&mut text, ascii(c.word()));
                write_shown(&mut text, ascii(" command"));
            },
            CommandError::InvalidArguments(ArgumentFault::NotBulkString) => {
                write_shown(&mut text, ascii("Invalid arguments: Argument not a BulkString"));
            },
        }
        assert(text@ =~= fault_text(self@));
        text
    }
}

/// Carries out a command on the store and appends the reply to the writer.
///
/// `PING` is answered with the bulk string `PONG`, `ECHO` with its
/// argument. `SET` puts the value under the key, over whatever was there,
/// and is answered with the bulk string `OK`. `GET` is answered with the
/// value under the key, or with the null bulk string if the store holds
/// none; it leaves the store as it is, and so do `PING` and `ECHO`.
pub fn handle_command(command: &Command<'_>, db: &mut DB, writer: &mut Vec<u8>)
    ensures
        store_map(*final(db)) == store_after(command@, store_map(*old(db))),
        final(writer)@ == old(writer)@ + encode(reply_to(command@, store_map(*old(db)))),
{
    match command {
        Command::PING => {
            proof {
                reveal_strlit("PONG");
            }
            serialise_bulk_string(&Some(ascii("PONG")), writer)
        },
        Command::ECHO(string) => serialise_bulk_string(&Some(*string), writer),
        Command::SET(key, value) => {
            store_insert(db, slice_to_vec(key), slice_to_vec(value));
            proof {
                reveal_strlit("OK");
            }
            serialise_bulk_string(&Some(ascii("OK")), writer)
        },
        Command::GET(key) => {
            match store_get(db, key) {
                Some(value) => serialise_bulk_string(&Some(value.as_slice()), writer),
                None => serialise_bulk_string(&None, writer),
            }
        },
    }
}

/// `GET` never changes the store, and asked again it gives the same reply.
pub proof fn lemma_get_is_idempotent(key: Seq<u8>, store: Map<Seq<u8>, Seq<u8>>)
    ensures
        store_after(Request::GET(key), store) == store,
        reply_to(Request::GET(key), store_after(Request::GET(key), store)) == reply_to(
            Request::GET(key),
            store,
        ),
{
}

/// The reply to `GET` changes only when the key is set: any request
/// between two `GET`s that is not a `SET` of that key leaves the reply as
/// it was.
pub proof fn lemma_get_unmodified_key(
    key: Seq<u8>,
    between: Request,
    store: Map<Seq<u8>, Seq<u8>>,
)
    requires
        !(between matches Request::SET(k, _) && k == key),
    ensures
        reply_to(Request::GET(key), store_after(between, store)) == reply_to(
            Request::GET(key),
            store,
        ),
{
}

/// Last write wins: after two `SET`s of one key, `GET` gives the value of
/// the second.
pub proof fn lemma_last_write_wins(
    key: Seq<u8>,
    first: Seq<u8>,
    second: Seq<u8>,
    store: Map<Seq<u8>, Seq<u8>>,
)
    ensures
        reply_to(
            Request::GET(key),
            store_after(
                Request::SET(key, second),
                store_after(Request::SET(key, first), store),
            ),
        ) == Frame::BulkString(Some(second)),
{
}

/// A `SET` of one key shows in a `GET` of that key and of no other.
pub proof fn lemma_set_is_visible(
    key: Seq<u8>,
    value: Seq<u8>,
    other: Seq<u8>,
    store: Map<Seq<u8>, Seq<u8>>,
)
    ensures
        reply_to(Request::GET(key), store_after(Request::SET(key, value), store))
            == Frame::BulkString(Some(value)),
        other != key ==> reply_to(
            Request::GET(other),
            store_after(Request::SET(key, value), store),
        ) == reply_to(Request::GET(other), store),
{
}

/// Writes to distinct keys do not disturb one another: in whatever order
/// they are carried out, each of them shows in a `GET` of its key
/// afterwards.
pub proof fn lemma_sets_of_distinct_keys_are_all_visible(
    entries: Seq<(Seq<u8>, Seq<u8>)>,
    store: Map<Seq<u8>, Seq<u8>>,
    i: int,
)
    requires
        0 <= i < entries.len(),
        forall|a: int, b: int|
            0 <= a < b < entries.len() ==> (#[trigger] entries[a]).0 != (#[trigger] entries[b]).0,
    ensures
        reply_to(Request::GET(entries[i].0), store_after_all(sets_of(entries), store))
            == Frame::BulkString(Some(entries[i].1)),
    decreases entries.len(),
{
    let earlier = entries.drop_last();
    assert(sets_of(entries).drop_last() =~= sets_of(earlier));
    if i < entries.len() - 1 {
        assert(entries[i].0 != entries[entries.len() - 1].0);
        assert forall|a: int, b: int| 0 <= a < b < earlier.len() implies (#[trigger] earlier[a]).0
            != (#[trigger] earlier[b]).0 by {
            assert(earlier[a] == entries[a]);
            assert(earlier[b] == entries[b]);
        }
        lemma_sets_of_distinct_keys_are_all_visible(earlier, store, i);
        assert(earlier[i] == entries[i]);
    }
}

} // verus!
