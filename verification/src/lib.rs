//! The core of a small key-value server that speaks a RESP-style protocol.
//!
//! - [`message`]: the messages of the protocol, their wire format as
//!   mathematics, the decoder and the encoder, and what holds of the two
//!   together.
//! - [`command`]: the commands `PING`, `ECHO`, `SET` and `GET`, read out of
//!   messages and carried out on the store.
//! - [`store`]: the store, a `DashMap`, as the map that it holds.
//! - [`server`]: the connection, a state machine from what happens on a
//!   transport to what is to be done next.
//!
//! Nothing here touches a socket or starts a thread. Every function is
//! verified against its contract; the few places where the code of another
//! crate is taken on trust are marked as such.

pub mod command;
pub mod message;
pub mod server;
pub mod store;
