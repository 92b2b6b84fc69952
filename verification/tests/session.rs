//! Tests of sessions.
use bytes::Bytes;
use soe_protocol::channel::{InputConfig, OutputConfig};
use soe_protocol::rc4::Rc4KeyState;
use soe_protocol::session::Lcg;
use soe_protocol::time::{Duration, Instant};
use soe_protocol::{
    ApplicationParameters, DisconnectReason, OpCode, SessionEvent, SessionMode, SessionParameters,
    SessionState, SoeSession,
};

fn params(protocol: &str) -> SessionParameters {
    SessionParameters {
        application_protocol: protocol.to_owned(),
        // Keep the window small so fragmentation/windowing is exercised.
        max_queued_incoming_reliable: 32,
        max_queued_outgoing_reliable: 32,
        // Disable heartbeats/timeouts for deterministic tests.
        heartbeat_after: Duration { nanos: 0 },
        inactivity_timeout: Duration { nanos: 0 },
        ..SessionParameters::default()
    }
}

fn now_instant() -> Instant {
    Instant { nanos: 1_000_000_000 }
}

fn after(now: Instant, millis: u64) -> Instant {
    Instant {
        nanos: now.nanos + u128::from(millis) * 1_000_000,
    }
}

/// Drives a full negotiation handshake between sessions with these parameters.
fn negotiate_with(
    client: SessionParameters,
    server: SessionParameters,
    now: Instant,
) -> (SoeSession, SoeSession) {
    let mut client = SoeSession::new(
        SessionMode::Client,
        client,
        ApplicationParameters::default(),
        1,
        now,
    );
    let mut server = SoeSession::new(
        SessionMode::Server,
        server,
        ApplicationParameters::default(),
        2,
        now,
    );

    client.send_session_request();
    pump(&mut client, &mut server, now);

    (client, server)
}

/// Drives a full negotiation handshake, returning the two running sessions.
fn negotiate(now: Instant) -> (SoeSession, SoeSession) {
    negotiate_with(params("TestProtocol"), params("TestProtocol"), now)
}

/// Moves all queued datagrams between the two sessions until neither has any
/// more to send.
fn pump(a: &mut SoeSession, b: &mut SoeSession, now: Instant) {
    loop {
        let from_a = a.take_outgoing();
        let from_b = b.take_outgoing();
        if from_a.is_empty() && from_b.is_empty() {
            break;
        }
        for dg in from_a {
            b.process_incoming(dg, now);
        }
        for dg in from_b {
            a.process_incoming(dg, now);
        }
    }
}

fn generate(size: usize) -> Vec<u8> {
    let mut state: u32 = 0x1234_5678 ^ size as u32;
    (0..size)
        .map(|_| {
            state = state.wrapping_mul(1_664_525).wrapping_add(1_013_904_223);
            (state >> 24) as u8
        })
        .collect()
}

#[test]
fn negotiation_establishes_running_session() {
    let now = now_instant();
    let (mut client, mut server) = negotiate(now);

    assert_eq!(client.state(), SessionState::Running);
    assert_eq!(server.state(), SessionState::Running);
    assert_eq!(client.session_id(), server.session_id());
    // Both parties agreed on the server's CRC seed.
    assert_ne!(server.crc_seed(), 0);
    assert_eq!(client.crc_seed(), server.crc_seed());

    assert!(client.take_events().contains(&SessionEvent::Opened));
    // The server only opens the session once it receives its first packet after
    // sending the response. Drive one more packet.
    assert!(client.enqueue_data(b"hi"));
    client.run_tick(now);
    pump(&mut client, &mut server, now);
    assert!(server.take_events().contains(&SessionEvent::Opened));
}

#[test]
fn protocol_mismatch_terminates() {
    let now = now_instant();
    let mut client = SoeSession::new(
        SessionMode::Client,
        params("ClientProtocol"),
        ApplicationParameters::default(),
        1,
        now,
    );
    let mut server = SoeSession::new(
        SessionMode::Server,
        params("ServerProtocol"),
        ApplicationParameters::default(),
        2,
        now,
    );

    client.send_session_request();
    pump(&mut client, &mut server, now);

    assert_eq!(server.state(), SessionState::Terminated);
    assert_eq!(
        server.termination_reason(),
        DisconnectReason::ProtocolMismatch
    );
    // The server rejects before a CRC seed is agreed, so it cannot send a valid
    // contextual Disconnect; the client stays in negotiation and would later time
    // out.
    assert_eq!(client.state(), SessionState::Negotiating);
}

#[test]
fn round_trips_small_and_large_data() {
    let now = now_instant();
    let (mut client, mut server) = negotiate(now);

    let small = generate(5);
    let large = generate(2000); // forces fragmentation

    assert!(client.enqueue_data(&small));
    assert!(client.enqueue_data(&large));

    client.run_tick(now);
    pump(&mut client, &mut server, now);

    let received = server.take_received();
    assert_eq!(received.len(), 2);
    assert_eq!(&received[0][..], &small[..]);
    assert_eq!(&received[1][..], &large[..]);
}

#[test]
fn round_trips_data_both_directions() {
    let now = now_instant();
    let (mut client, mut server) = negotiate(now);

    let to_server = generate(1500);
    let to_client = generate(800);

    assert!(client.enqueue_data(&to_server));
    assert!(server.enqueue_data(&to_client));
    client.run_tick(now);
    server.run_tick(now);
    pump(&mut client, &mut server, now);

    assert_eq!(&server.take_received()[0][..], &to_server[..]);
    assert_eq!(&client.take_received()[0][..], &to_client[..]);
}

/// A `MultiPacket` bundle whose first sub-packet corrupts the session must not
/// have its remaining sub-packets processed: once a sub-packet terminates the
/// session, the bundle loop short-circuits rather than delivering data on a dead
/// session.
#[test]
fn multi_packet_stops_after_sub_packet_terminates() {
    let now = now_instant();
    let (_client, mut server) = negotiate(now);
    assert_eq!(server.state(), SessionState::Running);

    // Build a MultiPacket body with two sub-packets:
    //   1. a corrupt master ReliableDataFragment (only 2 of the required 4
    //      total-length bytes) -> terminates the session as CorruptPacket;
    //   2. an otherwise-valid ReliableData carrying "hi".
    // Each sub-packet is `[length][op-code (2 BE)][sub-payload]`; lengths < 256
    // encode as a single byte.
    let mut body = Vec::new();

    // Sub-packet 1: ReliableDataFragment, sequence 0, truncated length prefix.
    let sub1 = [0x00, 0x0D, 0x00, 0x00, 0xAB, 0xCD];
    body.push(sub1.len() as u8);
    body.extend_from_slice(&sub1);

    // Sub-packet 2: ReliableData, sequence 0, payload "hi".
    let sub2 = [0x00, 0x09, 0x00, 0x00, b'h', b'i'];
    body.push(sub2.len() as u8);
    body.extend_from_slice(&sub2);

    server.handle_contextual_inner(OpCode::MultiPacket, Bytes::from(body), now);

    assert_eq!(server.state(), SessionState::Terminated);
    assert_eq!(server.termination_reason(), DisconnectReason::CorruptPacket);
    // The second sub-packet must never have reached the input channel.
    assert!(
        server.input().app_data().is_empty(),
        "data after a terminating sub-packet was processed"
    );
    assert!(server.take_received().is_empty());
}

#[test]
fn disconnect_notifies_remote() {
    let now = now_instant();
    let (mut client, mut server) = negotiate(now);

    client.terminate(DisconnectReason::Application, true, now);
    assert_eq!(client.state(), SessionState::Terminated);

    pump(&mut client, &mut server, now);
    assert_eq!(server.state(), SessionState::Terminated);
    assert_eq!(server.termination_reason(), DisconnectReason::Application);
    assert!(server.terminated_by_remote());
}

#[test]
fn encrypted_data_round_trips() {
    let now = now_instant();
    let key = Rc4KeyState::new(&[1, 2, 3, 4, 5]);
    let app = ApplicationParameters {
        encryption_key_state: Some(key),
    };

    let mut client = SoeSession::new(
        SessionMode::Client,
        params("TestProtocol"),
        app.clone(),
        1,
        now,
    );
    let mut server = SoeSession::new(SessionMode::Server, params("TestProtocol"), app, 2, now);

    client.send_session_request();
    pump(&mut client, &mut server, now);

    let data = generate(1200);
    assert!(client.enqueue_data(&data));
    client.run_tick(now);
    pump(&mut client, &mut server, now);

    assert_eq!(&server.take_received()[0][..], &data[..]);
}

/// The generator gives the high half of each state.
#[test]
fn generator_gives_known_numbers() {
    let mut rng = Lcg::new(0x9E37_79B9_7F4A_7C15);
    // From the state zero, the first state is the increment.
    assert_eq!(rng.next_u32(), (1_442_695_040_888_963_407u64 >> 32) as u32);
    let second = 1_442_695_040_888_963_407u64
        .wrapping_mul(6_364_136_223_846_793_005)
        .wrapping_add(1_442_695_040_888_963_407);
    assert_eq!(rng.next_u32(), (second >> 32) as u32);
}

/// What the two parties send to open a session.
#[test]
fn handshake_on_the_wire() {
    let now = now_instant();
    let mut client = SoeSession::new(
        SessionMode::Client,
        params("Ab"),
        ApplicationParameters::default(),
        1,
        now,
    );
    let mut server = SoeSession::new(
        SessionMode::Server,
        params("Ab"),
        ApplicationParameters::default(),
        2,
        now,
    );
    client.send_session_request();
    let request = client.take_outgoing();
    assert_eq!(request.len(), 1);
    let id = Lcg::new(1).next_u32();
    assert_eq!(client.session_id(), id);
    let mut expected = vec![0, 1, 0, 0, 0, 3];
    expected.extend_from_slice(&id.to_be_bytes());
    expected.extend_from_slice(&[0, 0, 2, 0, b'A', b'b', 0]);
    assert_eq!(&request[0][..], &expected[..]);

    server.process_incoming(request[0].clone(), now);
    let response = server.take_outgoing();
    assert_eq!(response.len(), 1);
    let seed = Lcg::new(2).next_u32();
    assert_eq!(server.crc_seed(), seed);
    let mut expected = vec![0, 2];
    expected.extend_from_slice(&id.to_be_bytes());
    expected.extend_from_slice(&seed.to_be_bytes());
    expected.extend_from_slice(&[2, 0, 0, 0, 0, 2, 0, 0, 0, 0, 3]);
    assert_eq!(&response[0][..], &expected[..]);
}

/// A datagram that fails its CRC ends the session, and the remote is told.
#[test]
fn corrupt_datagram_terminates() {
    let now = now_instant();
    let (mut client, mut server) = negotiate(now);
    assert!(client.enqueue_data(b"hello"));
    client.run_tick(now);
    let out = client.take_outgoing();
    let mut bytes = out[0].to_vec();
    bytes[5] ^= 1;
    server.process_incoming(Bytes::from(bytes), now);
    assert_eq!(server.state(), SessionState::Terminated);
    assert_eq!(server.termination_reason(), DisconnectReason::CorruptPacket);
    assert!(!server.terminated_by_remote());
    assert!(server.take_received().is_empty());
    pump(&mut client, &mut server, now);
    assert_eq!(client.state(), SessionState::Terminated);
    assert_eq!(client.termination_reason(), DisconnectReason::CorruptPacket);
}

/// A datagram that holds no OP code, or one that is not known, ends the session.
#[test]
fn datagram_without_op_code_terminates() {
    let now = now_instant();
    let (_, mut server) = negotiate(now);
    server.process_incoming(Bytes::from_static(&[0]), now);
    assert_eq!(server.termination_reason(), DisconnectReason::CorruptPacket);

    let (_, mut server) = negotiate(now);
    server.process_incoming(Bytes::from_static(&[0xFF, 0xFF, 0, 0]), now);
    assert_eq!(server.termination_reason(), DisconnectReason::CorruptPacket);
}

/// A terminated session does nothing any more.
#[test]
fn terminated_session_is_inert() {
    let now = now_instant();
    let (mut client, mut server) = negotiate(now);
    server.terminate(DisconnectReason::Application, false, now);
    server.take_events();
    server.take_outgoing();
    assert!(client.enqueue_data(b"late"));
    client.run_tick(now);
    for dg in client.take_outgoing() {
        server.process_incoming(dg, now);
    }
    server.run_tick(after(now, 100_000));
    server.terminate(DisconnectReason::Timeout, true, now);
    server.send_session_request();
    assert!(!server.enqueue_data(b"x"));
    assert!(server.take_outgoing().is_empty());
    assert!(server.take_received().is_empty());
    assert!(server.take_events().is_empty());
    assert_eq!(server.termination_reason(), DisconnectReason::Application);
}

/// A silent remote is given up, without notice.
#[test]
fn inactivity_times_out() {
    let now = now_instant();
    let mut quiet = params("TestProtocol");
    quiet.inactivity_timeout = Duration::from_millis(1000);
    let (_, mut server) = negotiate_with(params("TestProtocol"), quiet, now);
    server.run_tick(after(now, 1000));
    assert_eq!(server.state(), SessionState::Running);
    server.run_tick(after(now, 1001));
    assert_eq!(server.state(), SessionState::Terminated);
    assert_eq!(server.termination_reason(), DisconnectReason::Timeout);
    assert!(server.take_outgoing().is_empty());
    assert_eq!(
        server.take_events(),
        vec![SessionEvent::Closed(DisconnectReason::Timeout)]
    );
}

/// A client sends a heartbeat, and the server answers it.
#[test]
fn heartbeat_is_answered() {
    let now = now_instant();
    let mut beating = params("TestProtocol");
    beating.heartbeat_after = Duration::from_millis(50);
    let (mut client, mut server) = negotiate_with(beating, params("TestProtocol"), now);
    client.run_tick(after(now, 51));
    let beat = client.take_outgoing();
    assert_eq!(beat.len(), 1);
    assert_eq!(&beat[0][..2], &[0, 6]);
    server.process_incoming(beat[0].clone(), after(now, 51));
    let answer = server.take_outgoing();
    assert_eq!(answer, beat);
    client.process_incoming(answer[0].clone(), after(now, 60));
    assert!(client.take_outgoing().is_empty());
    // The answer was a sign of life.
    client.run_tick(after(now, 100));
    assert!(client.take_outgoing().is_empty());
}

/// Requests and responses in the wrong place.
#[test]
fn misplaced_handshake_packets_terminate() {
    let now = now_instant();
    let mut asking = SoeSession::new(
        SessionMode::Client,
        params("TestProtocol"),
        ApplicationParameters::default(),
        3,
        now,
    );
    asking.send_session_request();
    let request = asking.take_outgoing().remove(0);

    // A client that is asked for a session talks to itself.
    let (mut client, mut server) = negotiate(now);
    client.process_incoming(request.clone(), now);
    assert_eq!(client.termination_reason(), DisconnectReason::ConnectingToSelf);

    // A server that runs is asked again.
    server.process_incoming(request.clone(), now);
    assert_eq!(server.termination_reason(), DisconnectReason::ConnectError);

    // A request that ends too early.
    let (_, mut server) = negotiate(now);
    server.process_incoming(request.slice(0..8), now);
    assert_eq!(server.termination_reason(), DisconnectReason::CorruptPacket);

    // The remote knows of no session.
    let (mut client, _) = negotiate(now);
    client.process_incoming(Bytes::from_static(&[0x00, 0x1D]), now);
    assert_eq!(
        client.termination_reason(),
        DisconnectReason::UnreachableConnection
    );
}

/// Compressed packets: the server says whether there are any, and packets that are
/// marked as compressed are inflated.
#[test]
fn compressed_packets_are_inflated() {
    let now = now_instant();
    let mut compressing = params("TestProtocol");
    compressing.is_compression_enabled = true;
    let (mut client, mut server) =
        negotiate_with(params("TestProtocol"), compressing, now);
    assert_eq!(client.output().config().max_data_length, 512 - 2 - 2 - 1);

    // Uncompressed behind a flag byte.
    let data = generate(900);
    assert!(client.enqueue_data(&data));
    client.run_tick(now);
    pump(&mut client, &mut server, now);
    assert_eq!(&server.take_received()[0][..], &data[..]);

    // Compressed: a zlib stream with one stored block that holds sequence 2 and "ok".
    let stored = zlib_stored(&[0, 2, b'o', b'k']);
    let mut packet = vec![0, 9, 1];
    packet.extend_from_slice(&stored);
    let crc = soe_protocol::crc32::Crc32::new(server.crc_seed());
    soe_protocol::packet_utils::append_crc(&mut packet, &crc, 2);
    server.process_incoming(Bytes::from(packet), now);
    assert_eq!(server.state(), SessionState::Running);
    assert_eq!(server.take_received(), vec![b"ok".to_vec()]);

    // What cannot be inflated ends the session.
    let mut packet = vec![0, 9, 1, 1, 2, 3, 4];
    soe_protocol::packet_utils::append_crc(&mut packet, &crc, 2);
    server.process_incoming(Bytes::from(packet), now);
    assert_eq!(server.termination_reason(), DisconnectReason::CorruptPacket);
}

/// A zlib stream that stores `data` as it is.
fn zlib_stored(data: &[u8]) -> Vec<u8> {
    let len = data.len() as u16;
    let mut out = vec![0x78, 0x01, 0x01];
    out.extend_from_slice(&len.to_le_bytes());
    out.extend_from_slice(&(!len).to_le_bytes());
    out.extend_from_slice(data);
    let (mut a, mut b) = (1u32, 0u32);
    for byte in data {
        a = (a + u32::from(*byte)) % 65521;
        b = (b + a) % 65521;
    }
    out.extend_from_slice(&((b << 16) | a).to_be_bytes());
    out
}

/// Datagrams stay within what the remote accepts.
#[test]
fn datagrams_fit_the_remote() {
    let now = now_instant();
    let mut narrow = params("TestProtocol");
    narrow.udp_length = 100;
    let (mut client, mut server) = negotiate_with(params("TestProtocol"), narrow, now);
    let data = generate(950);
    assert!(client.enqueue_data(&data));
    client.run_tick(now);
    let out = client.take_outgoing();
    assert!(out.len() > 9);
    for dg in out {
        assert!(dg.len() <= 100);
        server.process_incoming(dg, now);
    }
    assert_eq!(&server.take_received()[0][..], &data[..]);
}

/// A disconnect packet whose reason is not known is ignored, and so is one that ends too
/// early.
#[test]
fn unreadable_disconnect_is_ignored() {
    let now = now_instant();
    let (_, mut server) = negotiate(now);
    server.handle_contextual_inner(
        OpCode::Disconnect,
        Bytes::from_static(&[0, 0, 0, 1, 0xFF, 0xFF]),
        now,
    );
    server.handle_contextual_inner(OpCode::Disconnect, Bytes::from_static(&[0, 0]), now);
    assert_eq!(server.state(), SessionState::Running);
}

/// What can be given to a session.
#[test]
fn session_says_what_it_accepts() {
    let now = now_instant();
    let (client, _) = negotiate(now);
    assert!(client.is_ready(&Bytes::from_static(&[0, 6])));
    assert!(client.accepts(100_000));
    assert!(!client.accepts(usize::MAX));

    let mut tiny = params("TestProtocol");
    tiny.udp_length = 9;
    let (client, _) = negotiate_with(params("TestProtocol"), tiny, now);
    assert_eq!(client.output().config().max_data_length, 5);
    assert!(client.accepts(2));
    assert!(!client.accepts(3));
    assert_eq!(client.mode(), SessionMode::Client);
}

/// A session with a receive window of zero takes packets in order, and stashes none.
#[test]
fn zero_window_stashes_nothing() {
    let now = now_instant();
    let mut none = params("TestProtocol");
    none.max_queued_incoming_reliable = 0;
    let (mut client, mut server) = negotiate_with(params("TestProtocol"), none, now);
    assert_eq!(server.state(), SessionState::Running);

    // A bundle that holds no data.
    let crc = soe_protocol::crc32::Crc32::new(server.crc_seed());
    let mut bundle = vec![0, 3, 2, 0, 6, 4, 0, 0x11, 0, 7];
    soe_protocol::packet_utils::append_crc(&mut bundle, &crc, 2);
    let bundle = Bytes::from(bundle);
    assert!(server.is_ready(&bundle));
    server.process_incoming(bundle, now);
    assert_eq!(server.output().stats().incoming_acknowledge_count, 1);
    assert_eq!(server.take_outgoing().len(), 1);

    assert!(client.enqueue_data(b"one"));
    assert!(client.enqueue_data(b"two"));
    client.run_tick(now);
    let out = client.take_outgoing();
    server.process_incoming(out[1].clone(), now);
    assert!(server.take_received().is_empty());
    server.process_incoming(out[0].clone(), now);
    server.process_incoming(out[1].clone(), now);
    assert_eq!(
        server.take_received(),
        vec![b"one".to_vec(), b"two".to_vec()]
    );

    client.terminate(DisconnectReason::Application, true, now);
    let goodbye = client.take_outgoing().pop().unwrap();
    server.process_incoming(goodbye, now);
    assert_eq!(server.termination_reason(), DisconnectReason::Application);
}

/// Data that arrives while a session is still being negotiated is processed and
/// acknowledged, but does not come out before the session has opened.
#[test]
fn no_data_before_open() {
    let now = now_instant();
    let mut client = SoeSession::new(
        SessionMode::Client,
        params("TestProtocol"),
        ApplicationParameters::default(),
        1,
        now,
    );
    let mut server = SoeSession::new(
        SessionMode::Server,
        params("TestProtocol"),
        ApplicationParameters::default(),
        2,
        now,
    );
    client.send_session_request();
    for dg in client.take_outgoing() {
        server.process_incoming(dg, now);
    }
    let crc = soe_protocol::crc32::Crc32::new(0);
    for body in [&[0, 9, 0, 0, b'h', b'i'][..], &[0, 3, 6, 0, 9, 0, 1, b'h', b'o'][..]] {
        let mut packet = body.to_vec();
        soe_protocol::packet_utils::append_crc(&mut packet, &crc, 2);
        client.process_incoming(Bytes::from(packet), now);
    }
    assert_eq!(client.state(), SessionState::Negotiating);
    assert!(client.take_received().is_empty());
    assert!(client.take_events().is_empty());
    assert_eq!(client.input().window_start(), 2);

    for dg in server.take_outgoing() {
        client.process_incoming(dg, now);
    }
    assert_eq!(client.take_events(), vec![SessionEvent::Opened]);
    assert_eq!(
        client.take_received(),
        vec![b"hi".to_vec(), b"ho".to_vec()]
    );
}

/// Acknowledgements and malformed fragments have their effect while a session is still
/// being negotiated, too.
#[test]
fn negotiating_session_handles_contextual_packets() {
    let now = now_instant();
    let mut client = SoeSession::new(
        SessionMode::Client,
        params("TestProtocol"),
        ApplicationParameters::default(),
        1,
        now,
    );
    client.handle_contextual_inner(OpCode::AcknowledgeAll, Bytes::from_static(&[0, 5]), now);
    assert_eq!(client.output().stats().incoming_acknowledge_count, 1);
    assert_eq!(client.output().max_client_sequence(), 5);

    client.handle_contextual_inner(
        OpCode::ReliableDataFragment,
        Bytes::from_static(&[0, 0, 0xAB, 0xCD]),
        now,
    );
    assert_eq!(client.state(), SessionState::Terminated);
    assert_eq!(client.termination_reason(), DisconnectReason::CorruptPacket);
}

/// A bundle has the effect of its packets, one after the other.
#[test]
fn bundle_is_handled_packet_by_packet() {
    let now = now_instant();
    let (mut bundled, _) = negotiate(now);
    let (mut single, _) = negotiate(now);
    let parts: [(OpCode, &[u8]); 3] = [
        (OpCode::ReliableData, &[0, 1, b'b']),
        (OpCode::Heartbeat, &[]),
        (OpCode::ReliableData, &[0, 0, b'a']),
    ];
    let mut body = Vec::new();
    for (op, payload) in parts {
        body.push(2 + payload.len() as u8);
        body.extend_from_slice(&op.as_u16().to_be_bytes());
        body.extend_from_slice(payload);
        single.handle_contextual_inner(op, Bytes::copy_from_slice(payload), now);
    }
    bundled.handle_contextual_inner(OpCode::MultiPacket, Bytes::from(body), now);
    bundled.run_tick(now);
    single.run_tick(now);
    assert_eq!(bundled.take_outgoing(), single.take_outgoing());
    let received = bundled.take_received();
    assert_eq!(received, vec![b"a".to_vec(), b"b".to_vec()]);
    assert_eq!(received, single.take_received());
}

/// Sessions made alike and called alike agree.
#[test]
fn equal_calls_give_equal_sessions() {
    let now = now_instant();
    let (mut a, mut b) = negotiate(now);
    let (mut c, mut d) = negotiate(now);
    for (x, y) in [(&mut a, &mut b), (&mut c, &mut d)] {
        assert!(x.enqueue_data(&generate(700)));
        x.run_tick(now);
        pump(x, y, now);
        y.run_tick(after(now, 3));
    }
    assert_eq!(a.session_id(), c.session_id());
    assert_eq!(b.crc_seed(), d.crc_seed());
    assert_eq!(b.take_outgoing(), d.take_outgoing());
    assert_eq!(b.take_received(), d.take_received());
    assert_eq!(b.take_events(), d.take_events());
}

#[test]
fn default_parameters() {
    let p = SessionParameters::default();
    assert_eq!(p.udp_length, 512);
    assert_eq!(p.remote_udp_length, 512);
    assert_eq!(p.crc_length, 2);
    assert_eq!(p.max_queued_incoming_reliable, 256);
    assert_eq!(p.max_queued_outgoing_reliable, 196);
    assert_eq!(p.heartbeat_after, Duration::from_millis(25_000));
    assert_eq!(p.inactivity_timeout, Duration::from_millis(30_000));
    assert_eq!(p.max_ack_delay, Duration::from_millis(2));
    assert_eq!(InputConfig::default().data_ack_window, 32);
    assert_eq!(OutputConfig::default().max_queued_outgoing, 196);
}
