//! Verified core of a WebSocket chat server built directly on TCP.
//!
//! The crate covers the protocol logic: the opening handshake (request
//! parsing and `Sec-WebSocket-Accept` computation), an incremental frame
//! decoder that reassembles one text message across arbitrarily split reads,
//! the outbound frame encoder, the connection registry that fans a message
//! out to every other connection, and the per-connection session state
//! machine.  Socket I/O, threads and persistence live outside the crate and
//! drive these components with plain values.

pub mod frame;
pub mod handshake;
pub mod registry;
pub mod session;
pub mod text;
pub mod todo_list;
pub mod todo_selector;
