//! Version 3 of the SOE network protocol, verified.
//!
//! SOE is a transport layer on top of UDP: sessions with a negotiated handshake,
//! heartbeats and inactivity timeouts; packets verified by a CRC; reliable data, cut
//! into fragments and delivered in order; compression and encryption where the parties
//! want them.
//!
//! All of it is a state machine that does no I/O and reads no clock. [`SoeSession`] is
//! one session; [`SoeMultiplexer`] keeps many sessions apart by their remote address.
//! Bytes are handed in and taken out, and the caller says what time it is.
//!
//! Every type has a mathematical model, its view, and every operation is stated as a
//! step from one view to the next. What holds over several steps, and of the two ends of
//! a session together, is stated in `channel::delivery`, `channel::schedule`,
//! `session::laws`, `session::runs`, `session::sending` and `socket::laws`.
pub mod buffer;
pub mod channel;
pub mod constants;
pub mod crc32;
pub mod driver;
pub mod error;
pub mod packet_utils;
pub mod packets;
pub mod protocol;
pub mod rc4;
pub mod session;
pub mod socket;
pub mod time;
pub mod varint;
pub mod wire;
pub mod zlib;

pub use error::{Error, Result};
pub use protocol::{DisconnectReason, OpCode};
pub use session::{
    ApplicationParameters, SessionEvent, SessionMode, SessionParameters, SessionState, SoeSession,
};
pub use socket::{RemoteAddr, SocketConfig, SocketEvent, SoeMultiplexer};
