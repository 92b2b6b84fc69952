//! Framing packets and verifying them.
//!
//! A contextual packet is its OP code, a flag byte where compression is enabled, its
//! payload, and the low bytes of a CRC over all of that.
use vstd::prelude::*;

use crate::constants::OP_CODE_SIZE;
use crate::crc32::{changed_byte_changes_crc, crc32, Crc32};
use crate::protocol::{contextless, op_code_number, op_code_of, op_codes_on_the_wire, OpCode};
use crate::wire::{
    be16, be16_digits, be16_round_trip, be32, from_be16, from_be16_digits, number16, push_bytes,
    push_u16, push_u32, read_u16,
};

verus! {

/// What came of verifying a packet.
#[derive(Debug, Clone, Copy, PartialEq, Eq, Structural)]
pub enum ValidationResult {
    /// The packet is whole.
    Valid,
    /// The packet is shorter than any packet of its kind.
    TooShort,
    /// The packet has no OP code that is known.
    InvalidOpCode,
    /// The CRC of the packet is wrong.
    CrcMismatch,
}

/// The OP code that `data` starts with, if any.
pub open spec fn leading_op_code(data: Seq<u8>) -> Option<OpCode> {
    if data.len() < OP_CODE_SIZE {
        None
    } else {
        op_code_of(from_be16(data))
    }
}

/// The number of bytes in which a packet holds a CRC, of which there are no more than
/// four.
pub open spec fn crc_size(crc_length: u8) -> int {
    if crc_length < 4 {
        crc_length as int
    } else {
        4
    }
}

/// The bytes in which a packet holds a CRC: the low ones, most significant first.
pub open spec fn crc_bytes(crc: u32, crc_length: u8) -> Seq<u8> {
    be32(crc).skip(4 - crc_size(crc_length))
}

/// The bytes of a contextual packet that its CRC is computed over.
pub open spec fn unverified_frame(op: OpCode, is_compression_enabled: bool, payload: Seq<u8>) -> Seq<
    u8,
> {
    be16(op_code_number(op)) + (if is_compression_enabled {
        seq![0u8]
    } else {
        Seq::<u8>::empty()
    }) + payload
}

/// A contextual packet on the wire. Payloads are sent uncompressed.
pub open spec fn frame(
    op: OpCode,
    payload: Seq<u8>,
    crc_seed: u32,
    crc_length: u8,
    is_compression_enabled: bool,
) -> Seq<u8> {
    let body = unverified_frame(op, is_compression_enabled, payload);
    body + crc_bytes(crc32(crc_seed, body), crc_length)
}

/// The bytes that a contextual packet has at least.
pub open spec fn contextual_minimum(crc_length: u8, is_compression_enabled: bool) -> int {
    OP_CODE_SIZE + crc_size(crc_length) + (if is_compression_enabled {
        1int
    } else {
        0
    })
}

/// What is wrong with a packet, if anything.
pub open spec fn verdict(
    data: Seq<u8>,
    crc_seed: u32,
    crc_length: u8,
    is_compression_enabled: bool,
) -> ValidationResult {
    if data.len() < OP_CODE_SIZE {
        ValidationResult::TooShort
    } else {
        match leading_op_code(data) {
            None => ValidationResult::InvalidOpCode,
            Some(op) => if contextless(op) {
                ValidationResult::Valid
            } else if data.len() < contextual_minimum(crc_length, is_compression_enabled) {
                ValidationResult::TooShort
            } else {
                let body = data.take(data.len() - crc_size(crc_length));
                if data.skip(data.len() - crc_size(crc_length)) == crc_bytes(
                    crc32(crc_seed, body),
                    crc_length,
                ) {
                    ValidationResult::Valid
                } else {
                    ValidationResult::CrcMismatch
                }
            },
        }
    }
}

/// The payload of a contextual packet: what is left without the OP code and the CRC.
pub open spec fn framed_payload(data: Seq<u8>, crc_length: u8) -> Seq<u8> {
    data.subrange(OP_CODE_SIZE as int, data.len() - crc_size(crc_length))
}

/// A contextual packet that was framed is found valid by whoever agrees on the CRC and
/// on compression, with the OP code and the payload that were framed.
pub proof fn framing_round_trip(
    op: OpCode,
    payload: Seq<u8>,
    crc_seed: u32,
    crc_length: u8,
    is_compression_enabled: bool,
)
    requires
        !contextless(op),
    ensures
        ({
            let data = frame(op, payload, crc_seed, crc_length, is_compression_enabled);
            &&& verdict(data, crc_seed, crc_length, is_compression_enabled)
                == ValidationResult::Valid
            &&& leading_op_code(data) == Some(op)
            &&& framed_payload(data, crc_length) == (if is_compression_enabled {
                seq![0u8]
            } else {
                Seq::<u8>::empty()
            }) + payload
        }),
{
    let data = frame(op, payload, crc_seed, crc_length, is_compression_enabled);
    let body = unverified_frame(op, is_compression_enabled, payload);
    let crc = crc_bytes(crc32(crc_seed, body), crc_length);
    assert(data == body + crc);
    let n = crc_size(crc_length);
    assert(crc.len() == n);
    assert(data.take(data.len() - n) =~= body);
    assert(data.skip(data.len() - n) =~= crc);
    assert(data =~= be16(op_code_number(op)) + data.skip(2));
    be16_round_trip(op_code_number(op), data.skip(2));
    crate::protocol::op_code_round_trip(op);
    assert(framed_payload(data, crc_length) =~= (if is_compression_enabled {
        seq![0u8]
    } else {
        Seq::<u8>::empty()
    }) + payload);
}

/// The number of bytes in which a packet holds a CRC.
pub fn crc_byte_count(crc_length: u8) -> (n: usize)
    ensures
        n == crc_size(crc_length),
{
    if crc_length < 4 {
        crc_length as usize
    } else {
        4
    }
}

/// Reads the OP code that `data` starts with, if any.
pub fn read_op_code(data: &[u8]) -> (op: Option<OpCode>)
    ensures
        op == leading_op_code(data@),
{
    if data.len() < OP_CODE_SIZE {
        return None;
    }
    assert(data@.skip(0) =~= data@);
    OpCode::from_u16(read_u16(data, 0))
}

/// Verifies a packet, and reads its OP code where it has one.
pub fn validate_packet(
    data: &[u8],
    crc: &Crc32,
    crc_length: u8,
    is_compression_enabled: bool,
) -> (r: (ValidationResult, Option<OpCode>))
    requires
        crc.wf(),
    ensures
        r.0 == verdict(data@, crc.seed(), crc_length, is_compression_enabled),
        r.1 == leading_op_code(data@),
{
    if data.len() < OP_CODE_SIZE {
        return (ValidationResult::TooShort, None);
    }
    let op = match read_op_code(data) {
        Some(op) => op,
        None => {
            return (ValidationResult::InvalidOpCode, None);
        },
    };
    if op.is_contextless() {
        return (ValidationResult::Valid, Some(op));
    }
    let flag: usize = if is_compression_enabled {
        1
    } else {
        0
    };
    let size: usize = crc_byte_count(crc_length);
    if data.len() < OP_CODE_SIZE + flag + size {
        return (ValidationResult::TooShort, Some(op));
    }
    let end: usize = data.len() - size;
    let actual: u32 = crc.hash(vstd::slice::slice_subrange(data, 0, end));
    assert(data@.subrange(0, end as int) =~= data@.take(end as int));
    let mut bytes: Vec<u8> = Vec::new();
    push_u32(&mut bytes, actual);
    assert(bytes@ =~= be32(actual));

    let crc_part = vstd::slice::slice_subrange(bytes.as_slice(), 4 - size, 4);
    assert(crc_part@ =~= crc_bytes(actual, crc_length));
    if ends_with(data, end, crc_part) {
        (ValidationResult::Valid, Some(op))
    } else {
        (ValidationResult::CrcMismatch, Some(op))
    }
}

/// Whether `data` ends with `expected` from `at` on.
fn ends_with(data: &[u8], at: usize, expected: &[u8]) -> (r: bool)
    requires
        at + expected@.len() == data@.len(),
    ensures
        r == (data@.skip(at as int) == expected@),
{
    let end: usize = data.len();
    let mut k: usize = 0;
    while k < expected.len()
        invariant
            k <= expected@.len(),
            end == data@.len(),
            at + expected@.len() == end,
            forall|m: int| 0 <= m < k ==> data@.skip(at as int)[m] == expected@[m],
        decreases expected@.len() - k,
    {
        if data[at + k] != expected[k] {
            assert(data@.skip(at as int)[k as int] != expected@[k as int]);
            return false;
        }
        k = k + 1;
    }
    assert(data@.skip(at as int) =~= expected@);
    true
}

/// Frames a contextual packet.
pub fn frame_packet(
    op: OpCode,
    payload: &[u8],
    crc: &Crc32,
    crc_length: u8,
    is_compression_enabled: bool,
) -> (out: Vec<u8>)
    requires
        crc.wf(),
    ensures
        out@ == frame(op, payload@, crc.seed(), crc_length, is_compression_enabled),
{
    let mut out: Vec<u8> = Vec::new();
    push_u16(&mut out, op.as_u16());
    if is_compression_enabled {
        out.push(0);
    }
    push_bytes(&mut out, payload);
    assert(out@ =~= unverified_frame(op, is_compression_enabled, payload@));
    append_crc(&mut out, crc, crc_length);
    out
}

/// Appends the CRC of what `out` holds.
pub fn append_crc(out: &mut Vec<u8>, crc: &Crc32, crc_length: u8)
    requires
        crc.wf(),
    ensures
        final(out)@ == old(out)@ + crc_bytes(crc32(crc.seed(), old(out)@), crc_length),
{
    let value: u32 = crc.hash(out.as_slice());
    let mut bytes: Vec<u8> = Vec::new();
    push_u32(&mut bytes, value);
    assert(bytes@ =~= be32(value));
    let size: usize = crc_byte_count(crc_length);
    push_bytes(out, vstd::slice::slice_subrange(bytes.as_slice(), 4 - size, 4));
    assert(bytes@.subrange(4 - size, 4) =~= crc_bytes(value, crc_length));
}

/// Whether a packet that starts with this number is verified by its CRC: the known numbers
/// but those of requests, responses, unknown senders and remaps.
pub open spec fn is_verified_number(n: int) -> bool {
    n == 0x03 || n == 0x05 || n == 0x06 || n == 0x07 || n == 0x08 || n == 0x09 || n == 0x0D
        || n == 0x11 || n == 0x15
}

/// Whether a packet that starts with this number is known by the number alone.
pub open spec fn is_unverified_number(n: int) -> bool {
    n == 0x01 || n == 0x02 || n == 0x1D || n == 0x1E
}

/// Whether `data` ends with the low `size` bytes of `crc`, most significant first.
pub open spec fn ends_with_low_bytes(data: Seq<u8>, crc: u32, size: int) -> bool {
    &&& size >= 1 ==> data[data.len() - 1] == crc % 0x100
    &&& size >= 2 ==> data[data.len() - 2] == crc / 0x100 % 0x100
    &&& size >= 3 ==> data[data.len() - 3] == crc / 0x1_0000 % 0x100
    &&& size >= 4 ==> data[data.len() - 4] == crc / 0x100_0000
}

proof fn low_bytes_are_compared(data: Seq<u8>, crc: u32, crc_length: u8)
    requires
        data.len() >= crc_size(crc_length),
    ensures
        (data.skip(data.len() - crc_size(crc_length)) == crc_bytes(crc, crc_length))
            <==> ends_with_low_bytes(data, crc, crc_size(crc_length)),
{
    let size = crc_size(crc_length);
    let low = crc_bytes(crc, crc_length);
    let end = data.skip(data.len() - size);
    assert(low.len() == size && end.len() == size);
    assert(forall|k: int| 0 <= k < size ==> low[k] == be32(crc)[4 - size + k]);
    assert(forall|k: int| 0 <= k < size ==> end[k] == data[data.len() - size + k]);
    if ends_with_low_bytes(data, crc, size) {
        assert forall|k: int| 0 <= k < size implies end[k] == low[k] by {
            assert(k == size - 1 || k == size - 2 || k == size - 3 || k == size - 4);
        }
        assert(end =~= low);
    }
    if end == low {
        assert(size >= 1 ==> end[size - 1] == low[size - 1]);
        assert(size >= 2 ==> end[size - 2] == low[size - 2]);
        assert(size >= 3 ==> end[size - 3] == low[size - 3]);
        assert(size >= 4 ==> end[size - 4] == low[size - 4]);
    }
}

/// What is found of a packet, by its bytes. Of one whose OP code needs a session, a packet
/// is whole just where it has its OP code, a flag where compression is enabled, and at its
/// end the low bytes, no more than four, of the CRC-32 of all that stands before them.
pub proof fn verification_is_exact(
    data: Seq<u8>,
    crc_seed: u32,
    crc_length: u8,
    is_compression_enabled: bool,
)
    ensures
        ({
            let found = verdict(data, crc_seed, crc_length, is_compression_enabled);
            let n = number16(data, 0);
            let size = if crc_length > 4 {
                4
            } else {
                crc_length as int
            };
            let least = 2 + size + (if is_compression_enabled {
                1int
            } else {
                0
            });
            let before = data.take(data.len() - size);
            let agrees = ends_with_low_bytes(data, crc32(crc_seed, before), size);
            &&& data.len() < 2 ==> found == ValidationResult::TooShort
            &&& data.len() >= 2 && is_unverified_number(n) ==> found == ValidationResult::Valid
            &&& data.len() >= 2 && !is_unverified_number(n) && !is_verified_number(n) ==> found
                == ValidationResult::InvalidOpCode
            &&& data.len() >= 2 && is_verified_number(n) && data.len() < least ==> found
                == ValidationResult::TooShort
            &&& is_verified_number(n) && data.len() >= least && agrees ==> found
                == ValidationResult::Valid
            &&& is_verified_number(n) && data.len() >= least && !agrees ==> found
                == ValidationResult::CrcMismatch
        }),
{
    from_be16_digits(data);
    op_codes_on_the_wire(from_be16(data));
    let size = crc_size(crc_length);
    if data.len() >= size {
        low_bytes_are_compared(data, crc32(crc_seed, data.take(data.len() - size)), crc_length);
    }
}

/// A packet that is found whole without being known by its number alone ends with the low
/// bytes of the CRC-32 of all that stands before them.
pub proof fn verification_is_sound(
    data: Seq<u8>,
    crc_seed: u32,
    crc_length: u8,
    is_compression_enabled: bool,
)
    requires
        verdict(data, crc_seed, crc_length, is_compression_enabled) == ValidationResult::Valid,
        !is_unverified_number(number16(data, 0)),
    ensures
        ({
            let size = if crc_length > 4 {
                4
            } else {
                crc_length as int
            };
            &&& data.len() >= 2 + size
            &&& ends_with_low_bytes(
                data,
                crc32(crc_seed, data.take(data.len() - size)),
                size,
            )
        }),
{
    verification_is_exact(data, crc_seed, crc_length, is_compression_enabled);
}

/// Of two packets of the same length with the same bytes in place of the CRC, not both are
/// found whole where the low bytes of the CRCs of what stands before them differ.
pub proof fn changed_packet_is_refused(
    whole: Seq<u8>,
    changed: Seq<u8>,
    crc_seed: u32,
    crc_length: u8,
    is_compression_enabled: bool,
)
    requires
        crc_length <= 4,
        verdict(whole, crc_seed, crc_length, is_compression_enabled) == ValidationResult::Valid,
        !is_unverified_number(number16(whole, 0)),
        !is_unverified_number(number16(changed, 0)),
        whole.len() == changed.len(),
        forall|k: int|
            whole.len() - crc_length <= k < whole.len() ==> #[trigger] whole[k] == changed[k],
        !ends_with_low_bytes(
            whole,
            crc32(crc_seed, changed.take(changed.len() - crc_length)),
            crc_length as int,
        ),
    ensures
        verdict(changed, crc_seed, crc_length, is_compression_enabled) != ValidationResult::Valid,
{
    verification_is_exact(whole, crc_seed, crc_length, is_compression_enabled);
    verification_is_exact(changed, crc_seed, crc_length, is_compression_enabled);
    let size = crc_length as int;
    assert(size >= 1 ==> whole[whole.len() - 1] == changed[whole.len() - 1]);
    assert(size >= 2 ==> whole[whole.len() - 2] == changed[whole.len() - 2]);
    assert(size >= 3 ==> whole[whole.len() - 3] == changed[whole.len() - 3]);
    assert(size >= 4 ==> whole[whole.len() - 4] == changed[whole.len() - 4]);
}

/// With a CRC of four bytes, no packet is found whole after one byte in front of its CRC
/// was changed, as long as its OP code still needs a session.
pub proof fn changed_byte_is_refused(
    whole: Seq<u8>,
    place: int,
    byte: u8,
    crc_seed: u32,
    is_compression_enabled: bool,
)
    requires
        verdict(whole, crc_seed, 4, is_compression_enabled) == ValidationResult::Valid,
        !is_unverified_number(number16(whole, 0)),
        0 <= place < whole.len() - 4,
        whole[place] != byte,
        !is_unverified_number(number16(whole.update(place, byte), 0)),
    ensures
        verdict(whole.update(place, byte), crc_seed, 4, is_compression_enabled)
            != ValidationResult::Valid,
{
    let changed = whole.update(place, byte);
    let body = whole.take(whole.len() - 4);
    verification_is_exact(whole, crc_seed, 4, is_compression_enabled);
    assert(changed.take(changed.len() - 4) =~= body.update(place, byte));
    changed_byte_changes_crc(crc_seed, body, place, byte);
    let a = crc32(crc_seed, body);
    let b = crc32(crc_seed, body.update(place, byte));
    crate::wire::be32_digits(a);
    crate::wire::be32_digits(b);
    if ends_with_low_bytes(whole, b, 4) {
        assert(be32(a) =~= be32(b));
        assert(false);
    }
    changed_packet_is_refused(whole, changed, crc_seed, 4, is_compression_enabled);
}

/// Where the bytes of a contextual packet stand: the number of its OP code, a flag of zero
/// where compression is enabled, the payload, and the low bytes of the CRC-32 of all that.
pub proof fn frame_layout(
    op: OpCode,
    payload: Seq<u8>,
    crc_seed: u32,
    crc_length: u8,
    is_compression_enabled: bool,
)
    ensures
        ({
            let data = frame(op, payload, crc_seed, crc_length, is_compression_enabled);
            let size = if crc_length > 4 {
                4
            } else {
                crc_length as int
            };
            let start = if is_compression_enabled {
                3int
            } else {
                2
            };
            &&& data.len() == start + payload.len() + size
            &&& number16(data, 0) == op_code_number(op)
            &&& is_compression_enabled ==> data[2] == 0
            &&& forall|k: int|
                0 <= k < payload.len() ==> #[trigger] payload[k] == data[start + k]
            &&& ends_with_low_bytes(data, crc32(crc_seed, data.take(data.len() - size)), size)
        }),
{
    let data = frame(op, payload, crc_seed, crc_length, is_compression_enabled);
    let body = unverified_frame(op, is_compression_enabled, payload);
    let size = crc_size(crc_length);
    let crc = crc_bytes(crc32(crc_seed, body), crc_length);
    be16_digits(op_code_number(op));
    assert(data.take(data.len() - size) =~= body);
    assert(data.skip(data.len() - size) =~= crc);
    low_bytes_are_compared(data, crc32(crc_seed, body), crc_length);
}

/// The payload of a packet is what stands between its OP code and its CRC.
pub proof fn payload_stands_between(data: Seq<u8>, crc_length: u8, k: int)
    requires
        data.len() >= 2 + crc_length || data.len() >= 6,
    ensures
        ({
            let size = if crc_length > 4 {
                4
            } else {
                crc_length as int
            };
            let payload = framed_payload(data, crc_length);
            &&& payload.len() == data.len() - 2 - size
            &&& 0 <= k < data.len() - 2 - size ==> payload[k] == data[k + 2]
        }),
{
}

} // verus!
