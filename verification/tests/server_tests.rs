use dashmap::DashMap;
use resp_server::message::{parse_message, DecodeError, Message};
use resp_server::server::{handle_message, Action, Connection, Event};
use resp_server::store::DB;

fn answer(request: &[u8], db: &mut DB) -> Vec<u8> {
    let (rest, message) = parse_message(request).unwrap();
    assert!(rest.is_empty());
    let mut out = Vec::new();
    handle_message(&message, db, &mut out);
    out
}

#[test]
fn ping_is_answered_with_pong() {
    let mut db: DB = DashMap::new();
    assert_eq!(answer(b"*1\r\n$4\r\nPING\r\n", &mut db), b"$4\r\nPONG\r\n");
}

#[test]
fn a_value_that_was_set_is_got() {
    let mut db: DB = DashMap::new();
    assert_eq!(
        answer(b"*3\r\n$3\r\nSET\r\n$3\r\nfoo\r\n$3\r\nbar\r\n", &mut db),
        b"$2\r\nOK\r\n"
    );
    assert_eq!(
        answer(b"*2\r\n$3\r\nGET\r\n$3\r\nfoo\r\n", &mut db),
        b"$3\r\nbar\r\n"
    );
}

#[test]
fn a_missing_key_is_answered_with_null() {
    let mut db: DB = DashMap::new();
    assert_eq!(answer(b"*2\r\n$3\r\nGET\r\n$3\r\nfoo\r\n", &mut db), b"$-1\r\n");
}

#[test]
fn a_wrong_number_of_arguments_is_an_error_and_the_connection_stays_open() {
    let mut db: DB = DashMap::new();
    let mut connection = Connection::new();
    let action = connection.step(Event::Received(b"*1\r\n$3\r\nSET\r\n"), &mut db);
    assert_eq!(
        action,
        Action::Write(
            b"-Invalid arguments: Wrong number of arguments for the SET command\r\n".to_vec()
        )
    );
    assert!(!connection.closed);
    assert!(connection.buffer.is_empty());
    assert!(db.is_empty());
    // The connection is still good for the next request.
    let action = connection.step(Event::Received(b"*1\r\n$4\r\nPING\r\n"), &mut db);
    assert_eq!(action, Action::Write(b"$4\r\nPONG\r\n".to_vec()));
}

#[test]
fn error_replies_are_error_messages() {
    let mut db: DB = DashMap::new();
    let replies = [
        answer(b"+PING\r\n", &mut db),
        answer(b"*0\r\n", &mut db),
        answer(b"*1\r\n$6\r\nFLUSH\n\r\n", &mut db),
        answer(b"*2\r\n$4\r\nECHO\r\n:5\r\n", &mut db),
    ];
    let expected: [&[u8]; 4] = [
        b"-The message format is invalid\r\n",
        b"-The message format is invalid\r\n",
        b"-Unknown command: FLUSH?\r\n",
        b"-Invalid arguments: Argument not a BulkString\r\n",
    ];
    for (reply, expected) in replies.iter().zip(expected.iter()) {
        assert_eq!(&reply[..], *expected);
        let (rest, message) = parse_message(reply).unwrap();
        assert!(rest.is_empty());
        assert!(matches!(message, Message::Error(_)));
    }
}

#[test]
fn decode_error_texts() {
    assert_eq!(DecodeError::UnknownType.message(), b"Protocol error: unknown type");
    assert_eq!(DecodeError::Incomplete.message(), b"Protocol error: incomplete frame");
    assert_eq!(DecodeError::InvalidLength.message(), b"Protocol error: invalid length");
    assert_eq!(DecodeError::InvalidInteger.message(), b"Protocol error: invalid integer");
    assert_eq!(DecodeError::InvalidFloat.message(), b"Protocol error: invalid float");
}

#[test]
fn a_new_connection_is_open_and_empty() {
    let connection = Connection::new();
    assert!(!connection.closed);
    assert!(connection.buffer.is_empty());
}

#[test]
fn a_request_in_pieces() {
    let mut db: DB = DashMap::new();
    let mut connection = Connection::new();
    let request = b"*3\r\n$3\r\nSET\r\n$3\r\nfoo\r\n$3\r\nbar\r\n";
    // Cut inside an element, so that what has arrived is incomplete.
    assert_eq!(connection.step(Event::Received(&request[..2]), &mut db), Action::Read);
    assert_eq!(connection.buffer, &request[..2]);
    assert_eq!(connection.step(Event::Received(&request[2..17]), &mut db), Action::Read);
    assert_eq!(connection.buffer, &request[..17]);
    assert!(db.is_empty());
    assert_eq!(
        connection.step(Event::Received(&request[17..]), &mut db),
        Action::Write(b"$2\r\nOK\r\n".to_vec())
    );
    assert!(connection.buffer.is_empty());
    assert_eq!(db.get(&b"foo"[..]).unwrap().value(), b"bar");
}

#[test]
fn a_request_cut_anywhere_is_answered_once() {
    let request = b"*3\r\n$3\r\nSET\r\n$3\r\nfoo\r\n$3\r\nbar\r\n";
    for n in 1..request.len() {
        let mut db: DB = DashMap::new();
        let mut connection = Connection::new();
        assert_eq!(
            connection.step(Event::Received(&request[..n]), &mut db),
            Action::Read,
            "cut at {}",
            n
        );
        assert_eq!(connection.buffer, &request[..n]);
        assert!(db.is_empty());
        assert_eq!(
            connection.step(Event::Received(&request[n..]), &mut db),
            Action::Write(b"$2\r\nOK\r\n".to_vec()),
            "cut at {}",
            n
        );
        assert!(connection.buffer.is_empty());
        assert_eq!(db.len(), 1);
    }
}

#[test]
fn a_request_byte_by_byte() {
    let mut db: DB = DashMap::new();
    let mut connection = Connection::new();
    let request = b"*2\r\n$4\r\nECHO\r\n$5\r\nhello\r\n";
    for k in 0..request.len() - 1 {
        assert_eq!(
            connection.step(Event::Received(&request[k..k + 1]), &mut db),
            Action::Read
        );
    }
    assert_eq!(
        connection.step(Event::Received(&request[request.len() - 1..]), &mut db),
        Action::Write(b"$5\r\nhello\r\n".to_vec())
    );
}

#[test]
fn several_requests_at_once() {
    let mut db: DB = DashMap::new();
    let mut connection = Connection::new();
    let action = connection.step(
        Event::Received(
            b"*3\r\n$3\r\nSET\r\n$1\r\nk\r\n$1\r\nv\r\n*2\r\n$3\r\nGET\r\n$1\r\nk\r\n*1\r\n$4\r\nPING\r\n*2\r\n$4\r\nEC",
        ),
        &mut db,
    );
    assert_eq!(
        action,
        Action::Write(b"$2\r\nOK\r\n$1\r\nv\r\n$4\r\nPONG\r\n".to_vec())
    );
    assert_eq!(connection.buffer, b"*2\r\n$4\r\nEC");
    let action = connection.step(Event::Received(b"HO\r\n$2\r\nhi\r\n"), &mut db);
    assert_eq!(action, Action::Write(b"$2\r\nhi\r\n".to_vec()));
    assert!(connection.buffer.is_empty());
}

#[test]
fn malformed_bytes_are_answered_and_dropped() {
    let mut db: DB = DashMap::new();
    let mut connection = Connection::new();
    let action = connection.step(Event::Received(b"hello\r\n"), &mut db);
    assert_eq!(action, Action::Write(b"-Protocol error: unknown type\r\n".to_vec()));
    assert!(connection.buffer.is_empty());
    assert!(!connection.closed);
    let action = connection.step(Event::Received(b"*1\r\n$4\r\nPING\r\n$-7\r\n+OK\r\n"), &mut db);
    assert_eq!(
        action,
        Action::Write(b"$4\r\nPONG\r\n-Protocol error: invalid length\r\n".to_vec())
    );
    assert!(connection.buffer.is_empty());
    let action = connection.step(Event::Received(b":x\r\n"), &mut db);
    assert_eq!(action, Action::Write(b"-Protocol error: invalid integer\r\n".to_vec()));
    let action = connection.step(Event::Received(b",x\r\n"), &mut db);
    assert_eq!(action, Action::Write(b"-Protocol error: invalid float\r\n".to_vec()));
    let action = connection.step(Event::Received(b"*1\r\n$4\r\nPING\r\n"), &mut db);
    assert_eq!(action, Action::Write(b"$4\r\nPONG\r\n".to_vec()));
}

#[test]
fn the_peer_closes() {
    let mut db: DB = DashMap::new();
    let mut connection = Connection::new();
    assert_eq!(connection.step(Event::Received(b"*1\r\n$4"), &mut db), Action::Read);
    assert_eq!(connection.step(Event::Received(b""), &mut db), Action::Close);
    assert!(connection.closed);
    assert_eq!(connection.buffer, b"*1\r\n$4");
    // Closed is final.
    assert_eq!(
        connection.step(Event::Received(b"\r\nPING\r\n"), &mut db),
        Action::Close
    );
    assert_eq!(connection.step(Event::Failed, &mut db), Action::Close);
    assert!(connection.closed);
    assert_eq!(connection.buffer, b"*1\r\n$4");
}

#[test]
fn the_transport_fails() {
    let mut db: DB = DashMap::new();
    let mut connection = Connection::new();
    connection.step(Event::Received(b"*3\r\n$3\r\nSET\r\n$1\r\nk\r\n$1\r\nv\r\n"), &mut db);
    assert_eq!(connection.step(Event::Failed, &mut db), Action::Close);
    assert!(connection.closed);
    // The store outlives the connection.
    assert_eq!(db.get(&b"k"[..]).unwrap().value(), b"v");
    assert_eq!(
        connection.step(Event::Received(b"*1\r\n$4\r\nPING\r\n"), &mut db),
        Action::Close
    );
}

#[test]
fn connections_share_one_store() {
    let mut db: DB = DashMap::new();
    let mut first = Connection::new();
    let mut second = Connection::new();
    first.step(Event::Received(b"*3\r\n$3\r\nSET\r\n$1\r\na\r\n$1\r\n1\r\n"), &mut db);
    second.step(Event::Received(b"*3\r\n$3\r\nSET\r\n$1\r\nb\r\n$1\r\n2\r\n"), &mut db);
    assert_eq!(
        first.step(Event::Received(b"*2\r\n$3\r\nGET\r\n$1\r\nb\r\n"), &mut db),
        Action::Write(b"$1\r\n2\r\n".to_vec())
    );
    assert_eq!(
        second.step(Event::Received(b"*2\r\n$3\r\nGET\r\n$1\r\na\r\n"), &mut db),
        Action::Write(b"$1\r\n1\r\n".to_vec())
    );
}
