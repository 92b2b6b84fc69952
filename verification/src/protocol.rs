//! OP codes and disconnect reasons.
use vstd::prelude::*;

verus! {

/// What kind of packet a datagram holds.
#[derive(Debug, Clone, Copy, PartialEq, Eq, Structural)]
pub enum OpCode {
    /// Asks for a session.
    SessionRequest,
    /// Grants a session.
    SessionResponse,
    /// Bundles several contextual packets.
    MultiPacket,
    /// Ends a session.
    Disconnect,
    /// Keeps a session alive.
    Heartbeat,
    /// Asks for network statistics.
    NetStatusRequest,
    /// Reports network statistics.
    NetStatusResponse,
    /// Carries a whole piece of reliable data.
    ReliableData,
    /// Carries a fragment of a piece of reliable data.
    ReliableDataFragment,
    /// Acknowledges one reliable data packet.
    Acknowledge,
    /// Acknowledges all reliable data packets up to one.
    AcknowledgeAll,
    /// Tells a sender that it has no session.
    UnknownSender,
    /// Asks to move a session to the port that this packet comes from.
    RemapConnection,
}

/// Why a session ended.
#[derive(Debug, Clone, Copy, PartialEq, Eq, Structural)]
pub enum DisconnectReason {
    /// No reason.
    Unspecified,
    /// The host answered with an ICMP error.
    IcmpError,
    /// Nothing was heard for too long.
    Timeout,
    /// The other side ended the session.
    OtherSideTerminated,
    /// The connection manager is gone.
    ManagerDeleted,
    /// The session could not be set up.
    ConnectFail,
    /// The application ended the session.
    Application,
    /// The remote knows of no session.
    UnreachableConnection,
    /// Reliable data was not acknowledged for too long.
    UnacknowledgedTimeout,
    /// The remote asked for a new session.
    NewConnectionAttempt,
    /// The remote refused the session.
    ConnectionRefused,
    /// A session was asked for where there is one.
    ConnectError,
    /// A session was asked for by this party itself.
    ConnectingToSelf,
    /// Too much reliable data is queued.
    ReliableOverflow,
    /// The application is gone.
    ApplicationReleased,
    /// A packet could not be read.
    CorruptPacket,
    /// The two parties speak different protocols.
    ProtocolMismatch,
}

/// The number that stands for an OP code on the wire.
pub open spec fn op_code_number(op: OpCode) -> u16 {
    match op {
        OpCode::SessionRequest => 0x01,
        OpCode::SessionResponse => 0x02,
        OpCode::MultiPacket => 0x03,
        OpCode::Disconnect => 0x05,
        OpCode::Heartbeat => 0x06,
        OpCode::NetStatusRequest => 0x07,
        OpCode::NetStatusResponse => 0x08,
        OpCode::ReliableData => 0x09,
        OpCode::ReliableDataFragment => 0x0D,
        OpCode::Acknowledge => 0x11,
        OpCode::AcknowledgeAll => 0x15,
        OpCode::UnknownSender => 0x1D,
        OpCode::RemapConnection => 0x1E,
    }
}

/// The number that stands for a disconnect reason on the wire.
pub open spec fn reason_number(reason: DisconnectReason) -> u16 {
    match reason {
        DisconnectReason::Unspecified => 0,
        DisconnectReason::IcmpError => 1,
        DisconnectReason::Timeout => 2,
        DisconnectReason::OtherSideTerminated => 3,
        DisconnectReason::ManagerDeleted => 4,
        DisconnectReason::ConnectFail => 5,
        DisconnectReason::Application => 6,
        DisconnectReason::UnreachableConnection => 7,
        DisconnectReason::UnacknowledgedTimeout => 8,
        DisconnectReason::NewConnectionAttempt => 9,
        DisconnectReason::ConnectionRefused => 10,
        DisconnectReason::ConnectError => 11,
        DisconnectReason::ConnectingToSelf => 12,
        DisconnectReason::ReliableOverflow => 13,
        DisconnectReason::ApplicationReleased => 14,
        DisconnectReason::CorruptPacket => 15,
        DisconnectReason::ProtocolMismatch => 16,
    }
}

/// The OP code that `n` stands for, if any.
pub open spec fn op_code_of(n: u16) -> Option<OpCode> {
    if exists|op: OpCode| op_code_number(op) == n {
        Some(choose|op: OpCode| op_code_number(op) == n)
    } else {
        None
    }
}

/// The disconnect reason that `n` stands for, if any.
pub open spec fn reason_of(n: u16) -> Option<DisconnectReason> {
    if exists|reason: DisconnectReason| reason_number(reason) == n {
        Some(choose|reason: DisconnectReason| reason_number(reason) == n)
    } else {
        None
    }
}

/// Packets that are read without knowing the session that they belong to.
pub open spec fn contextless(op: OpCode) -> bool {
    op is SessionRequest || op is SessionResponse || op is UnknownSender || op is RemapConnection
}

/// Every OP code is read back from its number.
pub proof fn op_code_round_trip(op: OpCode)
    ensures
        op_code_of(op_code_number(op)) == Some(op),
{
    let n = op_code_number(op);
    let found = choose|o: OpCode| op_code_number(o) == n;
    assert(op_code_number(found) == n);
}

/// Every disconnect reason is read back from its number.
pub proof fn reason_round_trip(reason: DisconnectReason)
    ensures
        reason_of(reason_number(reason)) == Some(reason),
{
    let n = reason_number(reason);
    let found = choose|r: DisconnectReason| reason_number(r) == n;
    assert(reason_number(found) == n);
}

impl OpCode {
    /// The number that stands for this OP code on the wire.
    pub fn as_u16(self) -> (n: u16)
        ensures
            n == op_code_number(self),
    {
        match self {
            OpCode::SessionRequest => 0x01,
            OpCode::SessionResponse => 0x02,
            OpCode::MultiPacket => 0x03,
            OpCode::Disconnect => 0x05,
            OpCode::Heartbeat => 0x06,
            OpCode::NetStatusRequest => 0x07,
            OpCode::NetStatusResponse => 0x08,
            OpCode::ReliableData => 0x09,
            OpCode::ReliableDataFragment => 0x0D,
            OpCode::Acknowledge => 0x11,
            OpCode::AcknowledgeAll => 0x15,
            OpCode::UnknownSender => 0x1D,
            OpCode::RemapConnection => 0x1E,
        }
    }

    /// The OP code that `n` stands for, if any.
    pub fn from_u16(n: u16) -> (op: Option<OpCode>)
        ensures
            op == op_code_of(n),
    {
        let op = match n {
            0x01 => OpCode::SessionRequest,
            0x02 => OpCode::SessionResponse,
            0x03 => OpCode::MultiPacket,
            0x05 => OpCode::Disconnect,
            0x06 => OpCode::Heartbeat,
            0x07 => OpCode::NetStatusRequest,
            0x08 => OpCode::NetStatusResponse,
            0x09 => OpCode::ReliableData,
            0x0D => OpCode::ReliableDataFragment,
            0x11 => OpCode::Acknowledge,
            0x15 => OpCode::AcknowledgeAll,
            0x1D => OpCode::UnknownSender,
            0x1E => OpCode::RemapConnection,
            _ => {
                return None;
            },
        };
        proof {
            op_code_round_trip(op);
        }
        Some(op)
    }

    /// Whether packets of this kind are read without knowing their session.
    pub fn is_contextless(self) -> (r: bool)
        ensures
            r == contextless(self),
    {
        match self {
            OpCode::SessionRequest
            | OpCode::SessionResponse
            | OpCode::UnknownSender
            | OpCode::RemapConnection => true,
            _ => false,
        }
    }
}

impl DisconnectReason {
    /// The number that stands for this reason on the wire.
    pub fn as_u16(self) -> (n: u16)
        ensures
            n == reason_number(self),
    {
        match self {
            DisconnectReason::Unspecified => 0,
            DisconnectReason::IcmpError => 1,
            DisconnectReason::Timeout => 2,
            DisconnectReason::OtherSideTerminated => 3,
            DisconnectReason::ManagerDeleted => 4,
            DisconnectReason::ConnectFail => 5,
            DisconnectReason::Application => 6,
            DisconnectReason::UnreachableConnection => 7,
            DisconnectReason::UnacknowledgedTimeout => 8,
            DisconnectReason::NewConnectionAttempt => 9,
            DisconnectReason::ConnectionRefused => 10,
            DisconnectReason::ConnectError => 11,
            DisconnectReason::ConnectingToSelf => 12,
            DisconnectReason::ReliableOverflow => 13,
            DisconnectReason::ApplicationReleased => 14,
            DisconnectReason::CorruptPacket => 15,
            DisconnectReason::ProtocolMismatch => 16,
        }
    }

    /// The reason that `n` stands for, if any.
    pub fn from_u16(n: u16) -> (reason: Option<DisconnectReason>)
        ensures
            reason == reason_of(n),
    {
        let reason = match n {
            0 => DisconnectReason::Unspecified,
            1 => DisconnectReason::IcmpError,
            2 => DisconnectReason::Timeout,
            3 => DisconnectReason::OtherSideTerminated,
            4 => DisconnectReason::ManagerDeleted,
            5 => DisconnectReason::ConnectFail,
            6 => DisconnectReason::Application,
            7 => DisconnectReason::UnreachableConnection,
            8 => DisconnectReason::UnacknowledgedTimeout,
            9 => DisconnectReason::NewConnectionAttempt,
            10 => DisconnectReason::ConnectionRefused,
            11 => DisconnectReason::ConnectError,
            12 => DisconnectReason::ConnectingToSelf,
            13 => DisconnectReason::ReliableOverflow,
            14 => DisconnectReason::ApplicationReleased,
            15 => DisconnectReason::CorruptPacket,
            16 => DisconnectReason::ProtocolMismatch,
            _ => {
                return None;
            },
        };
        proof {
            reason_round_trip(reason);
        }
        Some(reason)
    }
}

/// Which number stands for which OP code, and that no other number stands for one.
pub proof fn op_codes_on_the_wire(n: u16)
    ensures
        op_code_of(n) == (if n == 0x01 {
            Some(OpCode::SessionRequest)
        } else if n == 0x02 {
            Some(OpCode::SessionResponse)
        } else if n == 0x03 {
            Some(OpCode::MultiPacket)
        } else if n == 0x05 {
            Some(OpCode::Disconnect)
        } else if n == 0x06 {
            Some(OpCode::Heartbeat)
        } else if n == 0x07 {
            Some(OpCode::NetStatusRequest)
        } else if n == 0x08 {
            Some(OpCode::NetStatusResponse)
        } else if n == 0x09 {
            Some(OpCode::ReliableData)
        } else if n == 0x0D {
            Some(OpCode::ReliableDataFragment)
        } else if n == 0x11 {
            Some(OpCode::Acknowledge)
        } else if n == 0x15 {
            Some(OpCode::AcknowledgeAll)
        } else if n == 0x1D {
            Some(OpCode::UnknownSender)
        } else if n == 0x1E {
            Some(OpCode::RemapConnection)
        } else {
            None
        }),
{
    op_code_round_trip(OpCode::SessionRequest);
    op_code_round_trip(OpCode::SessionResponse);
    op_code_round_trip(OpCode::MultiPacket);
    op_code_round_trip(OpCode::Disconnect);
    op_code_round_trip(OpCode::Heartbeat);
    op_code_round_trip(OpCode::NetStatusRequest);
    op_code_round_trip(OpCode::NetStatusResponse);
    op_code_round_trip(OpCode::ReliableData);
    op_code_round_trip(OpCode::ReliableDataFragment);
    op_code_round_trip(OpCode::Acknowledge);
    op_code_round_trip(OpCode::AcknowledgeAll);
    op_code_round_trip(OpCode::UnknownSender);
    op_code_round_trip(OpCode::RemapConnection);
}

/// An OP code is read from its own number alone.
pub proof fn op_code_numbers_are_read_back(op: OpCode, n: u16)
    ensures
        op_code_of(n) == Some(op) <==> op_code_number(op) == n,
{
    op_code_round_trip(op);
    if op_code_of(n) == Some(op) {
        let found = choose|o: OpCode| op_code_number(o) == n;
        assert(op_code_number(found) == n);
    }
}

/// Only requests, responses, unknown senders and remaps are read without knowing the
/// session that they belong to: the packets with these four numbers.
pub proof fn contextless_numbers(op: OpCode)
    ensures
        contextless(op) <==> (op_code_number(op) == 0x01 || op_code_number(op) == 0x02
            || op_code_number(op) == 0x1D || op_code_number(op) == 0x1E),
{
}

/// The numbers 0 to 16 stand for disconnect reasons, each for one, and no other number
/// does.
pub proof fn reasons_on_the_wire(n: u16)
    ensures
        reason_of(n) is Some <==> n <= 16,
        reason_of(n) is Some ==> reason_number(reason_of(n)->0) == n,
        reason_of(0) == Some(DisconnectReason::Unspecified),
        reason_of(1) == Some(DisconnectReason::IcmpError),
        reason_of(2) == Some(DisconnectReason::Timeout),
        reason_of(3) == Some(DisconnectReason::OtherSideTerminated),
        reason_of(4) == Some(DisconnectReason::ManagerDeleted),
        reason_of(5) == Some(DisconnectReason::ConnectFail),
        reason_of(6) == Some(DisconnectReason::Application),
        reason_of(7) == Some(DisconnectReason::UnreachableConnection),
        reason_of(8) == Some(DisconnectReason::UnacknowledgedTimeout),
        reason_of(9) == Some(DisconnectReason::NewConnectionAttempt),
        reason_of(10) == Some(DisconnectReason::ConnectionRefused),
        reason_of(11) == Some(DisconnectReason::ConnectError),
        reason_of(12) == Some(DisconnectReason::ConnectingToSelf),
        reason_of(13) == Some(DisconnectReason::ReliableOverflow),
        reason_of(14) == Some(DisconnectReason::ApplicationReleased),
        reason_of(15) == Some(DisconnectReason::CorruptPacket),
        reason_of(16) == Some(DisconnectReason::ProtocolMismatch),
{
    reason_round_trip(DisconnectReason::Unspecified);
    reason_round_trip(DisconnectReason::IcmpError);
    reason_round_trip(DisconnectReason::Timeout);
    reason_round_trip(DisconnectReason::OtherSideTerminated);
    reason_round_trip(DisconnectReason::ManagerDeleted);
    reason_round_trip(DisconnectReason::ConnectFail);
    reason_round_trip(DisconnectReason::Application);
    reason_round_trip(DisconnectReason::UnreachableConnection);
    reason_round_trip(DisconnectReason::UnacknowledgedTimeout);
    reason_round_trip(DisconnectReason::NewConnectionAttempt);
    reason_round_trip(DisconnectReason::ConnectionRefused);
    reason_round_trip(DisconnectReason::ConnectError);
    reason_round_trip(DisconnectReason::ConnectingToSelf);
    reason_round_trip(DisconnectReason::ReliableOverflow);
    reason_round_trip(DisconnectReason::ApplicationReleased);
    reason_round_trip(DisconnectReason::CorruptPacket);
    reason_round_trip(DisconnectReason::ProtocolMismatch);
}

} // verus!
