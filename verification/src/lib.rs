//! A small in-memory key-value server's core: the wire codec, the commands,
//! the store, and the state machine of a client connection.
//!
//! Nothing here touches a socket or a task. `resp` turns bytes into protocol
//! values and back, `commands` reads a value as a command, `store` carries a
//! command out and encodes the answer, and `connection` says, event by
//! event, what a connection has to do next. `roundtrip` and `streaming`
//! hold what is proved of the codec as a whole.

pub mod commands;
pub mod connection;
pub mod decimal;
pub mod error;
pub mod resp;
pub mod roundtrip;
pub mod store;
pub mod streaming;
