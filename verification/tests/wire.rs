//! Tests of the packets on the wire, and of what they are made of.
use soe_protocol::channel::true_incoming_sequence;
use soe_protocol::crc32::Crc32;
use soe_protocol::packet_utils::{
    append_crc, frame_packet, read_op_code, validate_packet, ValidationResult,
};
use soe_protocol::packets::{
    read_acknowledged, Disconnect, RemapConnection, SessionRequest, SessionResponse,
};
use soe_protocol::rc4::Rc4KeyState;
use soe_protocol::time::{Duration, Instant};
use soe_protocol::varint::{data_bundle, multi_packet};
use soe_protocol::{zlib, DisconnectReason, Error, OpCode};

#[test]
fn session_request_round_trips() {
    let request = SessionRequest {
        soe_protocol_version: 3,
        session_id: 0x0102_0304,
        udp_length: 512,
        application_protocol: "Gr\u{fc}n".to_owned(),
    };
    let bytes = request.serialize();
    assert_eq!(
        bytes,
        [0, 1, 0, 0, 0, 3, 1, 2, 3, 4, 0, 0, 2, 0, b'G', b'r', 0xC3, 0xBC, b'n', 0]
    );
    let read = SessionRequest::deserialize(&bytes[2..]).unwrap();
    assert_eq!(read.session_id, 0x0102_0304);
    assert_eq!(read.udp_length, 512);
    assert_eq!(read.application_protocol, "Gr\u{fc}n");
    assert_eq!(
        SessionRequest::deserialize(&bytes[2..13]).err(),
        Some(Error::UnexpectedEnd)
    );
    assert_eq!(
        SessionRequest::deserialize(&bytes[2..19]).err(),
        Some(Error::UnexpectedEnd)
    );
    let mut bad = bytes.clone();
    bad[16] = 0xFF;
    assert_eq!(
        SessionRequest::deserialize(&bad[2..]).err(),
        Some(Error::InvalidText)
    );
}

#[test]
fn session_response_round_trips() {
    let response = SessionResponse {
        session_id: 7,
        crc_seed: 0xAABB_CCDD,
        crc_length: 2,
        is_compression_enabled: true,
        unknown_value_1: 0,
        udp_length: 500,
        soe_protocol_version: 3,
    };
    let bytes = response.serialize();
    assert_eq!(bytes.len(), 21);
    assert_eq!(&bytes[..12], &[0, 2, 0, 0, 0, 7, 0xAA, 0xBB, 0xCC, 0xDD, 2, 1]);
    assert_eq!(SessionResponse::deserialize(&bytes[2..]), Ok(response));
    assert_eq!(
        SessionResponse::deserialize(&bytes[2..20]),
        Err(Error::UnexpectedEnd)
    );
    let mut bad = bytes.clone();
    bad[10] = 5;
    assert_eq!(
        SessionResponse::deserialize(&bad[2..]),
        Err(Error::InvalidCrcLength)
    );
}

#[test]
fn disconnect_round_trips() {
    let disconnect = Disconnect {
        session_id: 0x0A0B_0C0D,
        reason: DisconnectReason::CorruptPacket,
    };
    let bytes = disconnect.serialize();
    assert_eq!(bytes, [0x0A, 0x0B, 0x0C, 0x0D, 0, 15]);
    assert_eq!(Disconnect::deserialize(&bytes), Ok(disconnect));
    assert_eq!(
        Disconnect::deserialize(&bytes[..5]),
        Err(Error::UnexpectedEnd)
    );
    assert_eq!(
        Disconnect::deserialize(&[0, 0, 0, 0, 1, 0]),
        Err(Error::InvalidReason)
    );
}

#[test]
fn remap_round_trips() {
    let remap = RemapConnection {
        session_id: 1,
        crc_seed: 2,
    };
    let mut buf = [0xEEu8; RemapConnection::SIZE + 1];
    assert_eq!(remap.serialize(&mut buf), Ok(RemapConnection::SIZE));
    assert_eq!(buf, [0, 0x1E, 0, 0, 0, 1, 0, 0, 0, 2, 0xEE]);
    assert_eq!(
        remap.serialize(&mut buf[..RemapConnection::SIZE - 1]),
        Err(Error::BufferTooSmall)
    );
    let bytes = buf[..RemapConnection::SIZE].to_vec();
    assert_eq!(RemapConnection::deserialize(&bytes), Ok(remap));
    assert_eq!(
        RemapConnection::deserialize(&bytes[..9]),
        Err(Error::UnexpectedEnd)
    );
    let mut other = bytes.clone();
    other[1] = 1;
    assert_eq!(
        RemapConnection::deserialize(&other),
        Err(Error::UnexpectedOpCode)
    );
}

#[test]
fn acknowledgement_is_read() {
    assert_eq!(read_acknowledged(&[1, 2, 3]), Ok(0x0102));
    assert_eq!(read_acknowledged(&[1]), Err(Error::UnexpectedEnd));
}

#[test]
fn op_codes_and_reasons() {
    assert_eq!(read_op_code(&[0, 9]), Some(OpCode::ReliableData));
    assert_eq!(read_op_code(&[0, 0x0D, 7]), Some(OpCode::ReliableDataFragment));
    assert_eq!(read_op_code(&[0]), None);
    assert_eq!(read_op_code(&[9, 0]), None);
    assert_eq!(OpCode::from_u16(OpCode::AcknowledgeAll.as_u16()), Some(OpCode::AcknowledgeAll));
    assert!(OpCode::SessionRequest.is_contextless());
    assert!(!OpCode::Heartbeat.is_contextless());
    assert_eq!(DisconnectReason::Application.as_u16(), 6);
    assert_eq!(DisconnectReason::from_u16(0), Some(DisconnectReason::Unspecified));
    assert_eq!(DisconnectReason::from_u16(99), None);
}

/// A CRC with the seed that stands for nothing in front is the well known one, over the
/// bytes of the seed and the data.
#[test]
fn crc_of_known_bytes() {
    // CRC-32 of "123456789" is CBF43926; its first four bytes are the seed here.
    let seed = u32::from_le_bytes(*b"1234");
    assert_eq!(Crc32::new(seed).hash(b"56789"), 0xCBF4_3926);
}

#[test]
fn framed_packets_are_valid() {
    let crc = Crc32::new(5);
    for crc_length in 0..=5u8 {
        for compressed in [false, true] {
            let packet = frame_packet(OpCode::Heartbeat, &[1, 2, 3], &crc, crc_length, compressed);
            assert_eq!(
                packet.len(),
                2 + usize::from(compressed) + 3 + usize::from(crc_length.min(4))
            );
            assert_eq!(
                validate_packet(&packet, &crc, crc_length, compressed),
                (ValidationResult::Valid, Some(OpCode::Heartbeat))
            );
            if crc_length > 0 {
                let mut bad = packet.clone();
                bad[2] ^= 0x80;
                assert_eq!(
                    validate_packet(&bad, &crc, crc_length, compressed).0,
                    ValidationResult::CrcMismatch
                );
            }
        }
    }
    assert_eq!(
        validate_packet(&[0, 6, 1], &crc, 2, false).0,
        ValidationResult::TooShort
    );
    assert_eq!(
        validate_packet(&[0], &crc, 2, false),
        (ValidationResult::TooShort, None)
    );
    assert_eq!(
        validate_packet(&[0xEE, 6], &crc, 2, false),
        (ValidationResult::InvalidOpCode, None)
    );
    assert_eq!(
        validate_packet(&[0, 1], &crc, 2, false),
        (ValidationResult::Valid, Some(OpCode::SessionRequest))
    );
}

#[test]
fn crc_is_appended_low_bytes_last() {
    let crc = Crc32::new(u32::from_le_bytes(*b"1234"));
    let mut packet = b"56789".to_vec();
    append_crc(&mut packet, &crc, 3);
    assert_eq!(&packet[5..], &[0xF4, 0x39, 0x26]);
}

#[test]
fn rc4_known_streams() {
    let mut key = Rc4KeyState::new(b"Wiki");
    let mut data = *b"pedia";
    key.transform_in_place(&mut data);
    assert_eq!(data, [0x10, 0x21, 0xBF, 0x04, 0x20]);

    // The same key state deciphers what it enciphers.
    let mut a = Rc4KeyState::new(b"Secret");
    let mut b = a.clone();
    let mut text = *b"Attack at dawn";
    a.transform_in_place(&mut text);
    assert_eq!(
        text,
        [
            0x45, 0xA0, 0x1F, 0x64, 0x5F, 0xC3, 0x5B, 0x38, 0x35, 0x52, 0x54, 0x4B, 0x9B, 0xF5
        ]
    );
    b.transform_in_place(&mut text);
    assert_eq!(&text, b"Attack at dawn");
}

#[test]
fn bundle_lengths() {
    assert_eq!(data_bundle::read(&[5], 0), Ok((5, 1)));
    assert_eq!(data_bundle::read(&[9, 0xFF, 1, 2], 1), Ok((0x0102, 4)));
    assert_eq!(
        data_bundle::read(&[0xFF, 0xFF, 0xFF, 0, 1, 0, 2], 0),
        Ok((0x0001_0002, 7))
    );
    assert_eq!(data_bundle::read(&[], 0), Err(Error::UnexpectedEnd));
    assert_eq!(data_bundle::read(&[0xFF, 1], 0), Err(Error::UnexpectedEnd));
    assert_eq!(multi_packet::read(&[255], 0), Ok((255, 1)));
    assert_eq!(multi_packet::read(&[0, 1, 0], 0), Ok((256, 3)));
    assert_eq!(
        multi_packet::read(&[0, 0, 0, 0, 1, 0, 0], 0),
        Ok((0x0001_0000, 7))
    );
    assert_eq!(multi_packet::read(&[0, 0, 0, 1], 0), Err(Error::UnexpectedEnd));
}

#[test]
fn sequences_are_recovered() {
    assert_eq!(true_incoming_sequence(5, 0, 256), 5);
    assert_eq!(true_incoming_sequence(0xFFFF, 0, 256), -1);
    assert_eq!(true_incoming_sequence(3, 65_534, 256), 65_539);
    assert_eq!(true_incoming_sequence(0xFFFE, 65_540, 256), 65_534);
    assert_eq!(true_incoming_sequence(1_000, 10 * 65_536 + 1_010, 32), 10 * 65_536 + 1_000);
}

#[test]
fn inflating() {
    // A stored block that holds "hi".
    let stream = [0x78, 0x01, 0x01, 2, 0, 0xFD, 0xFF, b'h', b'i', 0x01, 0x3B, 0x00, 0xD2];
    assert_eq!(zlib::inflate(&stream), Ok(b"hi".to_vec()));
    assert_eq!(
        zlib::inflate(&[1, 2, 3]),
        Err(Error::InvalidCompressedData)
    );
}

#[test]
fn spans_of_time() {
    let a = Instant { nanos: 5 };
    let b = Instant { nanos: 9 };
    assert_eq!(b.duration_since(a), Duration { nanos: 4 });
    assert_eq!(a.duration_since(b), Duration { nanos: 0 });
    assert!(Duration::from_millis(2).exceeds(&Duration { nanos: 1_999_999 }));
    assert!(Duration { nanos: 0 }.is_zero());
}
