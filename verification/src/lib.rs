//! RESP frames: a reader that checks and decodes them from bytes, a writer
//! that encodes them, and the buffers and decisions of a connection that
//! carries them. The contracts speak of the byte-level model in `wire`; the
//! laws of that model are in `laws`.

pub mod ascii;
pub mod connection;
pub mod cursor;
pub mod db;
pub mod decimal;
pub mod frame;
pub mod laws;
pub mod wire;

pub use cursor::Cursor;
pub use frame::{Error, Frame};
