//! The message model and its codec.

pub mod laws;
pub mod message;
pub mod parse;
pub mod serialise;
pub mod text;
pub mod wire;

pub use self::message::Message;
pub use self::parse::parse_message;
pub use self::serialise::serialise_message;
pub use self::wire::DecodeError;
