//! A small key-value server core that speaks the RESP wire protocol.
//!
//! The modules follow a request on its way: `parser` decodes the bytes of a
//! buffer to a `Frame`, `command` reads the frame as a command, `dispatch`
//! carries the command out on the `Db` and replies, and `writer` encodes the
//! reply. `connection` puts these together for one buffer and says when a
//! handler stops. `roundtrip` proves that decoding undoes encoding.

pub mod command;
pub mod connection;
pub mod db;
pub mod dispatch;
pub mod error;
pub mod frame;
pub mod line;
pub mod number;
pub mod parser;
pub mod roundtrip;
pub mod text;
pub mod writer;

pub use crate::db::Db;
pub use crate::error::DecodeError;
pub use crate::frame::Frame;
pub use crate::parser::Parser;
pub use crate::writer::Writer;
