//! The packets that set up, acknowledge and end a session.
use vstd::prelude::*;
use vstd::utf8::*;

use crate::error::{Error, Result};
use crate::protocol::{op_code_number, reason_number, reason_of, DisconnectReason, OpCode};
use crate::wire::{
    be16, be16_digits, be16_round_trip, be32, be32_digits, be32_round_trip, from_be16, from_be32,
    number16, number32, push_bytes, push_u16, push_u32, read_u16, read_u32,
};

verus! {

/// `String::from_utf8`: succeeds exactly on valid UTF-8, and the text is the one that
/// these bytes encode.
#[verifier::external_body]
fn text_from_utf8(bytes: Vec<u8>) -> (r: Option<String>)
    ensures
        match r {
            Some(text) => valid_utf8(bytes@) && encode_utf8(text@) == bytes@,
            None => !valid_utf8(bytes@),
        },
{
    String::from_utf8(bytes).ok()
}

/// What a session request says.
pub struct SessionRequestView {
    /// The protocol version spoken.
    pub soe_protocol_version: u32,
    /// The ID that the session is to have.
    pub session_id: u32,
    /// The largest UDP payload that the sender accepts.
    pub udp_length: u32,
    /// The application protocol.
    pub application_protocol: Seq<char>,
}

/// A session request on the wire, after its OP code. A zero byte ends the text.
pub open spec fn request_body(r: SessionRequestView) -> Seq<u8> {
    be32(r.soe_protocol_version) + be32(r.session_id) + be32(r.udp_length) + encode_utf8(
        r.application_protocol,
    ) + seq![0u8]
}

/// The session request that `body` holds.
pub open spec fn request_of(body: Seq<u8>) -> Result<SessionRequestView> {
    let text = body.skip(12);
    if body.len() < 12 || !text.contains(0u8) {
        Err(Error::UnexpectedEnd)
    } else if !valid_utf8(text.take(text.index_of_first(0u8)->0)) {
        Err(Error::InvalidText)
    } else {
        Ok(
            SessionRequestView {
                soe_protocol_version: from_be32(body),
                session_id: from_be32(body.skip(4)),
                udp_length: from_be32(body.skip(8)),
                application_protocol: decode_utf8(text.take(text.index_of_first(0u8)->0)),
            },
        )
    }
}

/// A session request is read back from what was written for it, where its text holds no
/// zero byte.
pub proof fn request_round_trip(r: SessionRequestView)
    requires
        !encode_utf8(r.application_protocol).contains(0u8),
    ensures
        request_of(request_body(r)) == Ok::<SessionRequestView, Error>(r),
{
    broadcast use encode_utf8_valid_utf8, encode_utf8_decode_utf8;

    let body = request_body(r);
    let text = encode_utf8(r.application_protocol);
    let tail = text + seq![0u8];
    assert(body =~= be32(r.soe_protocol_version) + (be32(r.session_id) + be32(r.udp_length)
        + tail));
    be32_round_trip(r.soe_protocol_version, be32(r.session_id) + be32(r.udp_length) + tail);
    assert(body.skip(4) =~= be32(r.session_id) + (be32(r.udp_length) + tail));
    be32_round_trip(r.session_id, be32(r.udp_length) + tail);
    assert(body.skip(8) =~= be32(r.udp_length) + tail);
    be32_round_trip(r.udp_length, tail);
    assert(body.skip(12) =~= tail);
    assert(tail[text.len() as int] == 0u8);
    tail.index_of_first_ensures(0u8);
    let at = tail.index_of_first(0u8)->0;
    if at < text.len() {
        assert(text[at] == 0u8);
    }
    assert(at == text.len());
    assert(tail.take(at) =~= text);
}

/// Asks for a session.
#[derive(Debug)]
pub struct SessionRequest {
    /// The protocol version spoken.
    pub soe_protocol_version: u32,
    /// The ID that the session is to have.
    pub session_id: u32,
    /// The largest UDP payload that the sender accepts.
    pub udp_length: u32,
    /// The application protocol.
    pub application_protocol: String,
}

impl View for SessionRequest {
    type V = SessionRequestView;

    open spec fn view(&self) -> SessionRequestView {
        SessionRequestView {
            soe_protocol_version: self.soe_protocol_version,
            session_id: self.session_id,
            udp_length: self.udp_length,
            application_protocol: self.application_protocol@,
        }
    }
}

impl SessionRequest {
    /// The request on the wire, OP code first.
    pub fn serialize(&self) -> (out: Vec<u8>)
        ensures
            out@ == be16(op_code_number(OpCode::SessionRequest)) + request_body(self@),
    {
        let mut out: Vec<u8> = Vec::new();
        push_u16(&mut out, OpCode::SessionRequest.as_u16());
        push_u32(&mut out, self.soe_protocol_version);
        push_u32(&mut out, self.session_id);
        push_u32(&mut out, self.udp_length);
        push_bytes(&mut out, self.application_protocol.as_str().as_bytes());
        out.push(0);
        assert(out@ =~= be16(op_code_number(OpCode::SessionRequest)) + request_body(self@));
        out
    }

    /// Reads a request, its OP code being gone already.
    pub fn deserialize(body: &[u8]) -> (r: Result<SessionRequest>)
        ensures
            match request_of(body@) {
                Ok(request) => r matches Ok(q) && q@ == request,
                Err(e) => r matches Err(f) && f == e,
            },
    {
        broadcast use encode_utf8_decode_utf8;

        if body.len() < 12 {
            return Err(Error::UnexpectedEnd);
        }
        let ghost text = body@.skip(12);
        let mut end: usize = 12;
        while end < body.len() && body[end] != 0
            invariant
                12 <= end <= body@.len(),
                text == body@.skip(12),
                forall|k: int| 0 <= k < end - 12 ==> text[k] != 0,
            decreases body@.len() - end,
        {
            end = end + 1;
        }
        if end == body.len() {
            return Err(Error::UnexpectedEnd);
        }
        proof {
            assert(text[end - 12] == 0u8);
            text.index_of_first_ensures(0u8);
            assert(text.index_of_first(0u8)->0 == end - 12);
        }
        let mut bytes: Vec<u8> = Vec::new();
        push_bytes(&mut bytes, vstd::slice::slice_subrange(body, 12, end));
        assert(bytes@ =~= text.take(end - 12));
        match text_from_utf8(bytes) {
            Some(application_protocol) => {
                assert(body@.skip(0) =~= body@);
                Ok(
                    SessionRequest {
                        soe_protocol_version: read_u32(body, 0),
                        session_id: read_u32(body, 4),
                        udp_length: read_u32(body, 8),
                        application_protocol,
                    },
                )
            },
            None => Err(Error::InvalidText),
        }
    }
}

/// Grants a session.
#[derive(Debug, Clone, Copy, PartialEq, Eq, Structural)]
pub struct SessionResponse {
    /// The ID of the session.
    pub session_id: u32,
    /// The seed under which packet CRCs are computed.
    pub crc_seed: u32,
    /// The number of bytes of a packet CRC.
    pub crc_length: u8,
    /// Whether contextual packets may be compressed.
    pub is_compression_enabled: bool,
    /// Always zero.
    pub unknown_value_1: u8,
    /// The largest UDP payload that the sender accepts.
    pub udp_length: u32,
    /// The protocol version spoken.
    pub soe_protocol_version: u32,
}

/// The byte that stands for a truth value.
pub open spec fn bool_byte(b: bool) -> u8 {
    if b {
        1
    } else {
        0
    }
}

/// A session response on the wire, after its OP code.
pub open spec fn response_body(r: SessionResponse) -> Seq<u8> {
    be32(r.session_id) + be32(r.crc_seed) + seq![
        r.crc_length,
        bool_byte(r.is_compression_enabled),
        r.unknown_value_1,
    ] + be32(r.udp_length) + be32(r.soe_protocol_version)
}

/// The session response that `body` holds.
pub open spec fn response_of(body: Seq<u8>) -> Result<SessionResponse> {
    if body.len() < 19 {
        Err(Error::UnexpectedEnd)
    } else if body[8] > 4 {
        Err(Error::InvalidCrcLength)
    } else {
        Ok(
            SessionResponse {
                session_id: from_be32(body),
                crc_seed: from_be32(body.skip(4)),
                crc_length: body[8],
                is_compression_enabled: body[9] != 0,
                unknown_value_1: body[10],
                udp_length: from_be32(body.skip(11)),
                soe_protocol_version: from_be32(body.skip(15)),
            },
        )
    }
}

/// A session response is read back from what was written for it.
pub proof fn response_round_trip(r: SessionResponse)
    requires
        r.crc_length <= 4,
    ensures
        response_of(response_body(r)) == Ok::<SessionResponse, Error>(r),
{
    let body = response_body(r);
    let middle = seq![r.crc_length, bool_byte(r.is_compression_enabled), r.unknown_value_1];
    let end = be32(r.udp_length) + be32(r.soe_protocol_version);
    assert(body =~= be32(r.session_id) + (be32(r.crc_seed) + middle + end));
    be32_round_trip(r.session_id, be32(r.crc_seed) + middle + end);
    assert(body.skip(4) =~= be32(r.crc_seed) + (middle + end));
    be32_round_trip(r.crc_seed, middle + end);
    assert(body.skip(11) =~= be32(r.udp_length) + be32(r.soe_protocol_version));
    be32_round_trip(r.udp_length, be32(r.soe_protocol_version));
    assert(body.skip(15) =~= be32(r.soe_protocol_version) + Seq::<u8>::empty());
    be32_round_trip(r.soe_protocol_version, Seq::<u8>::empty());
}

impl SessionResponse {
    /// The response on the wire, OP code first.
    pub fn serialize(&self) -> (out: Vec<u8>)
        ensures
            out@ == be16(op_code_number(OpCode::SessionResponse)) + response_body(*self),
    {
        let mut out: Vec<u8> = Vec::new();
        push_u16(&mut out, OpCode::SessionResponse.as_u16());
        push_u32(&mut out, self.session_id);
        push_u32(&mut out, self.crc_seed);
        out.push(self.crc_length);
        out.push(
            if self.is_compression_enabled {
                1
            } else {
                0
            },
        );
        out.push(self.unknown_value_1);
        push_u32(&mut out, self.udp_length);
        push_u32(&mut out, self.soe_protocol_version);
        assert(out@ =~= be16(op_code_number(OpCode::SessionResponse)) + response_body(*self));
        out
    }

    /// Reads a response, its OP code being gone already.
    pub fn deserialize(body: &[u8]) -> (r: Result<SessionResponse>)
        ensures
            r == response_of(body@),
    {
        if body.len() < 19 {
            return Err(Error::UnexpectedEnd);
        }
        if body[8] > 4 {
            return Err(Error::InvalidCrcLength);
        }
        assert(body@.skip(0) =~= body@);
        Ok(
            SessionResponse {
                session_id: read_u32(body, 0),
                crc_seed: read_u32(body, 4),
                crc_length: body[8],
                is_compression_enabled: body[9] != 0,
                unknown_value_1: body[10],
                udp_length: read_u32(body, 11),
                soe_protocol_version: read_u32(body, 15),
            },
        )
    }
}

/// Ends a session.
#[derive(Debug, Clone, Copy, PartialEq, Eq, Structural)]
pub struct Disconnect {
    /// The ID of the session.
    pub session_id: u32,
    /// Why the session ends.
    pub reason: DisconnectReason,
}

/// A disconnect packet on the wire, after its OP code.
pub open spec fn disconnect_body(d: Disconnect) -> Seq<u8> {
    be32(d.session_id) + be16(reason_number(d.reason))
}

/// The disconnect packet that `body` holds.
pub open spec fn disconnect_of(body: Seq<u8>) -> Result<Disconnect> {
    if body.len() < 6 {
        Err(Error::UnexpectedEnd)
    } else {
        match reason_of(from_be16(body.skip(4))) {
            Some(reason) => Ok(Disconnect { session_id: from_be32(body), reason }),
            None => Err(Error::InvalidReason),
        }
    }
}

/// A disconnect packet is read back from what was written for it.
pub proof fn disconnect_round_trip(d: Disconnect)
    ensures
        disconnect_of(disconnect_body(d)) == Ok::<Disconnect, Error>(d),
{
    let body = disconnect_body(d);
    be32_round_trip(d.session_id, be16(reason_number(d.reason)));
    assert(body.skip(4) =~= be16(reason_number(d.reason)) + Seq::<u8>::empty());
    be16_round_trip(reason_number(d.reason), Seq::<u8>::empty());
    crate::protocol::reason_round_trip(d.reason);
}

impl Disconnect {
    /// The packet on the wire, without its OP code.
    pub fn serialize(&self) -> (out: Vec<u8>)
        ensures
            out@ == disconnect_body(*self),
    {
        let mut out: Vec<u8> = Vec::new();
        push_u32(&mut out, self.session_id);
        push_u16(&mut out, self.reason.as_u16());
        assert(out@ =~= disconnect_body(*self));
        out
    }

    /// Reads a disconnect packet, its OP code being gone already.
    pub fn deserialize(body: &[u8]) -> (r: Result<Disconnect>)
        ensures
            r == disconnect_of(body@),
    {
        if body.len() < 6 {
            return Err(Error::UnexpectedEnd);
        }
        assert(body@.skip(0) =~= body@);
        match DisconnectReason::from_u16(read_u16(body, 4)) {
            Some(reason) => Ok(Disconnect { session_id: read_u32(body, 0), reason }),
            None => Err(Error::InvalidReason),
        }
    }
}

/// The sequence number that the body of an acknowledgement holds.
pub open spec fn acknowledged_of(body: Seq<u8>) -> Result<u16> {
    if body.len() < 2 {
        Err(Error::UnexpectedEnd)
    } else {
        Ok(from_be16(body))
    }
}

/// Reads the sequence number that an acknowledgement holds, its OP code being gone
/// already.
pub fn read_acknowledged(body: &[u8]) -> (r: Result<u16>)
    ensures
        r == acknowledged_of(body@),
{
    if body.len() < 2 {
        return Err(Error::UnexpectedEnd);
    }
    assert(body@.skip(0) =~= body@);
    Ok(read_u16(body, 0))
}

/// Asks to move a session to the port that the packet comes from.
#[derive(Debug, Clone, Copy, PartialEq, Eq, Structural)]
pub struct RemapConnection {
    /// The ID of the session.
    pub session_id: u32,
    /// The seed under which the packet CRCs of the session are computed.
    pub crc_seed: u32,
}

/// A remap packet on the wire.
pub open spec fn remap_bytes(r: RemapConnection) -> Seq<u8> {
    be16(op_code_number(OpCode::RemapConnection)) + be32(r.session_id) + be32(r.crc_seed)
}

/// The remap packet that `data` holds.
pub open spec fn remap_of(data: Seq<u8>) -> Result<RemapConnection> {
    if data.len() < 10 {
        Err(Error::UnexpectedEnd)
    } else if from_be16(data) != op_code_number(OpCode::RemapConnection) {
        Err(Error::UnexpectedOpCode)
    } else {
        Ok(
            RemapConnection {
                session_id: from_be32(data.skip(2)),
                crc_seed: from_be32(data.skip(6)),
            },
        )
    }
}

/// A remap packet is read back from what was written for it.
pub proof fn remap_round_trip(r: RemapConnection)
    ensures
        remap_of(remap_bytes(r)) == Ok::<RemapConnection, Error>(r),
{
    let data = remap_bytes(r);
    let op = op_code_number(OpCode::RemapConnection);
    assert(data =~= be16(op) + (be32(r.session_id) + be32(r.crc_seed)));
    be16_round_trip(op, be32(r.session_id) + be32(r.crc_seed));
    assert(data.skip(2) =~= be32(r.session_id) + be32(r.crc_seed));
    be32_round_trip(r.session_id, be32(r.crc_seed));
    assert(data.skip(6) =~= be32(r.crc_seed) + Seq::<u8>::empty());
    be32_round_trip(r.crc_seed, Seq::<u8>::empty());
}

impl RemapConnection {
    /// The bytes of a remap packet.
    pub const SIZE: usize = 10;

    /// Writes the packet, OP code first, to the start of `buf`, and returns how many bytes
    /// that took.
    pub fn serialize(&self, buf: &mut [u8]) -> (r: Result<usize>)
        ensures
            if old(buf)@.len() < Self::SIZE {
                r == Err::<usize, Error>(Error::BufferTooSmall) && final(buf)@ == old(buf)@
            } else {
                r == Ok::<usize, Error>(Self::SIZE) && final(buf)@ == remap_bytes(*self) + old(buf)@.skip(Self::SIZE as int)
            },
    {
        if buf.len() < Self::SIZE {
            return Err(Error::BufferTooSmall);
        }
        let mut out: Vec<u8> = Vec::new();
        push_u16(&mut out, OpCode::RemapConnection.as_u16());
        push_u32(&mut out, self.session_id);
        push_u32(&mut out, self.crc_seed);
        assert(out@ =~= remap_bytes(*self));
        let mut k: usize = 0;
        while k < Self::SIZE
            invariant
                k <= Self::SIZE,
                out@.len() == Self::SIZE,
                buf@.len() == old(buf)@.len(),
                old(buf)@.len() >= Self::SIZE,
                forall|j: int| 0 <= j < k ==> buf@[j] == out@[j],
                forall|j: int| k <= j < buf@.len() ==> buf@[j] == old(buf)@[j],
            decreases Self::SIZE - k,
        {
            buf[k] = out[k];
            k = k + 1;
        }
        assert(buf@ =~= remap_bytes(*self) + old(buf)@.skip(Self::SIZE as int));
        Ok(Self::SIZE)
    }

    /// Reads a remap packet, OP code first.
    pub fn deserialize(data: &[u8]) -> (r: Result<RemapConnection>)
        ensures
            r == remap_of(data@),
    {
        if data.len() < 10 {
            return Err(Error::UnexpectedEnd);
        }
        assert(data@.skip(0) =~= data@);
        if read_u16(data, 0) != OpCode::RemapConnection.as_u16() {
            return Err(Error::UnexpectedOpCode);
        }
        Ok(RemapConnection { session_id: read_u32(data, 2), crc_seed: read_u32(data, 6) })
    }
}

/// Where the fields of a session request stand.
pub proof fn request_layout(r: SessionRequestView)
    ensures
        ({
            let body = request_body(r);
            let text = encode_utf8(r.application_protocol);
            &&& body.len() == 13 + text.len()
            &&& number32(body, 0) == r.soe_protocol_version
            &&& number32(body, 4) == r.session_id
            &&& number32(body, 8) == r.udp_length
            &&& body.subrange(12, 12 + text.len() as int) == text
            &&& body.last() == 0
        }),
{
    be32_digits(r.soe_protocol_version);
    be32_digits(r.session_id);
    be32_digits(r.udp_length);
    let body = request_body(r);
    let text = encode_utf8(r.application_protocol);
    assert(body.subrange(12, 12 + text.len() as int) =~= text);
}

/// What is read from a session request: three numbers, and the text up to the first zero
/// byte behind them.
pub proof fn request_is_read(body: Seq<u8>, end: int)
    requires
        12 <= end < body.len(),
        body[end] == 0,
        forall|k: int| 12 <= k < end ==> #[trigger] body[k] != 0,
    ensures
        ({
            let text = body.subrange(12, end);
            match request_of(body) {
                Ok(r) => valid_utf8(text) && r.soe_protocol_version == number32(body, 0)
                    && r.session_id == number32(body, 4) && r.udp_length == number32(body, 8)
                    && encode_utf8(r.application_protocol) == text,
                Err(e) => !valid_utf8(text) && e == Error::InvalidText,
            }
        }),
{
    broadcast use encode_utf8_decode_utf8, decode_utf8_encode_utf8;

    let text = body.skip(12);
    assert(text[end - 12] == 0u8);
    text.index_of_first_ensures(0u8);
    let at = text.index_of_first(0u8)->0;
    if at < end - 12 {
        assert(body[at + 12] != 0);
    }
    assert(at == end - 12);
    assert(text.take(at) =~= body.subrange(12, end));
}

/// A session request without a zero byte behind its numbers is cut short.
pub proof fn cut_request_is_refused(body: Seq<u8>)
    requires
        forall|k: int| 12 <= k < body.len() ==> #[trigger] body[k] != 0,
    ensures
        request_of(body) == Err::<SessionRequestView, Error>(Error::UnexpectedEnd),
{
    let text = body.skip(12);
    if body.len() >= 12 && text.contains(0u8) {
        let k = choose|k: int| 0 <= k < text.len() && text[k] == 0u8;
        assert(body[k + 12] != 0);
    }
}

/// Where the fields of a session response stand.
pub proof fn response_layout(r: SessionResponse)
    ensures
        ({
            let body = response_body(r);
            &&& body.len() == 19
            &&& number32(body, 0) == r.session_id
            &&& number32(body, 4) == r.crc_seed
            &&& body[8] == r.crc_length
            &&& body[9] == (if r.is_compression_enabled {
                1int
            } else {
                0
            })
            &&& body[10] == r.unknown_value_1
            &&& number32(body, 11) == r.udp_length
            &&& number32(body, 15) == r.soe_protocol_version
        }),
{
    be32_digits(r.session_id);
    be32_digits(r.crc_seed);
    be32_digits(r.udp_length);
    be32_digits(r.soe_protocol_version);
}

/// What is read from a session response, and which ones are refused: those under 19 bytes,
/// and those with a CRC of more than four.
pub proof fn response_is_read(body: Seq<u8>)
    ensures
        match response_of(body) {
            Ok(r) => body.len() >= 19 && body[8] <= 4 && r.session_id == number32(body, 0)
                && r.crc_seed == number32(body, 4) && r.crc_length == body[8]
                && r.is_compression_enabled == (body[9] != 0) && r.unknown_value_1 == body[10]
                && r.udp_length == number32(body, 11) && r.soe_protocol_version == number32(
                body,
                15,
            ),
            Err(e) => if body.len() < 19 {
                e == Error::UnexpectedEnd
            } else {
                body[8] > 4 && e == Error::InvalidCrcLength
            },
        },
{
}

/// Where the fields of a disconnect stand.
pub proof fn disconnect_layout(d: Disconnect)
    ensures
        disconnect_body(d).len() == 6,
        number32(disconnect_body(d), 0) == d.session_id,
        number16(disconnect_body(d), 4) == reason_number(d.reason),
{
    be32_digits(d.session_id);
    be16_digits(reason_number(d.reason));
}

/// What is read from a disconnect, and which ones are refused: those under six bytes, and
/// those with a reason past the last.
pub proof fn disconnect_is_read(body: Seq<u8>)
    ensures
        match disconnect_of(body) {
            Ok(d) => body.len() >= 6 && d.session_id == number32(body, 0) && reason_number(d.reason)
                == number16(body, 4),
            Err(e) => if body.len() < 6 {
                e == Error::UnexpectedEnd
            } else {
                number16(body, 4) > 16 && e == Error::InvalidReason
            },
        },
{
    crate::protocol::reasons_on_the_wire(from_be16(body.skip(4)));
}

/// What is read from an acknowledgement: its first two bytes, without which it is refused.
pub proof fn acknowledgement_is_read(body: Seq<u8>)
    ensures
        match acknowledged_of(body) {
            Ok(sequence) => body.len() >= 2 && sequence == number16(body, 0),
            Err(e) => body.len() < 2 && e == Error::UnexpectedEnd,
        },
{
}

/// Where the fields of a remap stand.
pub proof fn remap_layout(r: RemapConnection)
    ensures
        remap_bytes(r).len() == 10,
        number16(remap_bytes(r), 0) == 0x1E,
        number32(remap_bytes(r), 2) == r.session_id,
        number32(remap_bytes(r), 6) == r.crc_seed,
{
    be16_digits(op_code_number(OpCode::RemapConnection));
    be32_digits(r.session_id);
    be32_digits(r.crc_seed);
}

/// What is read from a remap, and which ones are refused: those under ten bytes, and those
/// with another OP code.
pub proof fn remap_is_read(data: Seq<u8>)
    ensures
        match remap_of(data) {
            Ok(r) => data.len() >= 10 && number16(data, 0) == 0x1E && r.session_id == number32(
                data,
                2,
            ) && r.crc_seed == number32(data, 6),
            Err(e) => if data.len() < 10 {
                e == Error::UnexpectedEnd
            } else {
                number16(data, 0) != 0x1E && e == Error::UnexpectedOpCode
            },
        },
{
}

} // verus!
