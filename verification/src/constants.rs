//! Numbers that the protocol fixes, and defaults.
use vstd::prelude::*;

verus! {

/// The protocol version spoken.
pub const SOE_PROTOCOL_VERSION: u32 = 3;

/// The number of bytes of a packet CRC, unless agreed otherwise.
pub const CRC_LENGTH: u8 = 2;

/// The largest UDP payload that a party accepts, unless it says otherwise.
pub const DEFAULT_UDP_LENGTH: u32 = 512;

/// The milliseconds of silence after which a client sends a heartbeat.
pub const DEFAULT_SESSION_HEARTBEAT_AFTER_MILLIS: u64 = 25_000;

/// The milliseconds of silence after which a session is given up.
pub const DEFAULT_SESSION_INACTIVITY_TIMEOUT_MILLIS: u64 = 30_000;

/// The milliseconds to wait for an acknowledgement before sending again.
pub const DEFAULT_ACK_WAIT_MILLIS: u64 = 500;

/// The first two bytes of reliable data that bundles several data units.
pub const MULTI_DATA_INDICATOR: [u8; 2] = [0x00, 0x19];

/// The number of bytes of an OP code.
pub const OP_CODE_SIZE: usize = 2;

/// A sequence number that a channel may have reached and still carry on.
///
/// One datagram moves a sequence number by far less than the distance from here to
/// `i64::MAX`.
pub const MAX_SEQUENCE: i64 = 0x2000_0000_0000_0000;

/// The largest datagram that a session takes. UDP allows for far less.
pub const MAX_DATAGRAM_LENGTH: usize = 0xFFFF_FFFF;

} // verus!
