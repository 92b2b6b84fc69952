//! End-to-end fuzz tests for the reliable data channels.
//!
//! Each case wires a [`ReliableDataOutputChannel`] directly into a
//! [`ReliableDataInputChannel`] (the "loopback wire"), enqueues a battery of
//! application packets of various sizes, pumps the dispatch/acknowledge cycle to
//! completion, and asserts that the input channel reassembles exactly the same
//! packets, in order. This exercises fragmentation, sequencing, windowing and
//! reassembly together.
use soe_protocol::channel::{
    InputConfig, OutputConfig, ReliableDataInputChannel, ReliableDataOutputChannel,
};
use soe_protocol::rc4::Rc4KeyState;
use soe_protocol::time::{Duration, Instant};
use soe_protocol::OpCode;

/// The maximum length of the data portion (sequence + data) of a single packet:
/// the default UDP length minus the OP code and CRC.
const MAX_DATA_LENGTH: usize = 508;
/// The fragment window size for both directions.
const WINDOW: usize = 32;

/// Generates a deterministic, reproducible pseudo-random packet of the given size.
///
/// The generator is re-seeded per packet, so every packet shares the same leading
/// bytes. The result is then nudged away from the reserved multi-data indicator
/// prefix, which the input channel would otherwise interpret as a bundle rather
/// than opaque application data.
fn generate_packet(size: usize) -> Vec<u8> {
    let mut state: u64 = 23445;
    let mut out = Vec::with_capacity(size);
    while out.len() < size {
        // splitmix64
        state = state.wrapping_add(0x9E37_79B9_7F4A_7C15);
        let mut z = state;
        z = (z ^ (z >> 30)).wrapping_mul(0xBF58_476D_1CE4_E5B9);
        z = (z ^ (z >> 27)).wrapping_mul(0x94D0_49BB_1331_11EB);
        z ^= z >> 31;
        out.extend_from_slice(&z.to_le_bytes());
    }
    out.truncate(size);
    if size > 2 && out[0] == 0x00 && out[1] == 0x19 {
        out[0] ^= 0xFF;
    }
    out
}

/// Pumps `packets` through a loopback output→input channel pair and asserts they
/// are received intact and in order.
fn assert_roundtrip(packets: &[Vec<u8>]) {
    assert_roundtrip_under(packets, None);
}

/// Does so under a cipher, where there is one.
fn assert_roundtrip_under(packets: &[Vec<u8>], cipher: Option<Rc4KeyState>) {
    let start = Instant { nanos: 0 };

    let mut output = ReliableDataOutputChannel::new(
        OutputConfig {
            max_data_length: MAX_DATA_LENGTH,
            max_queued_outgoing: WINDOW,
            ack_wait: Duration::from_millis(500),
        },
        cipher.clone(),
        start,
    );
    let mut input = ReliableDataInputChannel::new(
        InputConfig {
            max_queued_incoming: WINDOW as u16,
            acknowledge_all_data: false,
            data_ack_window: WINDOW as u16,
            max_ack_delay: Duration { nanos: 0 },
        },
        cipher,
        start,
    );

    for packet in packets {
        output.enqueue_data(packet);
    }

    let mut received: Vec<Vec<u8>> = Vec::new();
    let mut now = start;
    let tick = Duration::from_millis(1);

    // A generous upper bound on iterations: every iteration delivers and acks a full
    // window, so convergence is comfortably within this.
    let total_fragments: usize = packets.iter().map(|p| p.len() / MAX_DATA_LENGTH + 1).sum();
    let max_iters = total_fragments * 4 + 1000;

    let mut iters = 0;
    loop {
        // The tick is far smaller than `ack_wait`, so we never trigger spurious
        // resends; the window advances purely on the acknowledgements we feed back.
        now = Instant {
            nanos: now.nanos + tick.nanos,
        };

        output.run_tick(now);
        for pkt in output.take_outgoing() {
            match pkt.op_code {
                OpCode::ReliableData => input
                    .handle_reliable_data(pkt.payload, now)
                    .expect("valid reliable data"),
                OpCode::ReliableDataFragment => input
                    .handle_reliable_data_fragment(pkt.payload, now)
                    .expect("valid reliable data fragment"),
                other => panic!("unexpected output op code: {other:?}"),
            }
        }

        for data in input.take_app_data() {
            received.push(data.to_vec());
        }

        input.run_tick(now);
        for ack in input.take_outgoing() {
            match ack.op_code {
                OpCode::Acknowledge => output.notify_of_acknowledge(ack.sequence, now),
                OpCode::AcknowledgeAll => output.notify_of_acknowledge_all(ack.sequence, now),
                other => panic!("unexpected acknowledgement op code: {other:?}"),
            }
        }

        if output.queued_len() == 0 {
            for data in input.take_app_data() {
                received.push(data.to_vec());
            }
            break;
        }

        iters += 1;
        assert!(iters < max_iters, "channels did not converge");
    }

    assert_eq!(
        received.len(),
        packets.len(),
        "received packet count mismatch"
    );
    for (i, (got, expected)) in received.iter().zip(packets).enumerate() {
        assert_eq!(
            got, expected,
            "recomposed packet {i} differs from the original"
        );
    }
}

#[test]
fn single_small_packet() {
    assert_roundtrip(&[generate_packet(5)]);
}

#[test]
fn multiple_small_packets() {
    assert_roundtrip(&[
        generate_packet(3),
        generate_packet(45),
        generate_packet(1),
        generate_packet(214),
    ]);
}

#[test]
fn multiple_small_packets_requiring_fragmentation() {
    assert_roundtrip(&[
        generate_packet(3),
        generate_packet(45),
        generate_packet(1),
        generate_packet(214),
        generate_packet(214),
        generate_packet(214),
    ]);
}

#[test]
fn largest_single_data_packet() {
    // Exactly the largest payload that still fits in a single (non-fragmented) packet.
    assert_roundtrip(&[generate_packet(MAX_DATA_LENGTH - 2)]);
}

#[test]
fn single_large_packet() {
    // One byte over the single-packet limit, forcing fragmentation.
    assert_roundtrip(&[generate_packet(MAX_DATA_LENGTH - 1)]);
}

#[test]
fn multiple_large_packets() {
    assert_roundtrip(&[
        generate_packet(512),
        generate_packet(512 + 7),
        generate_packet(512 + 54),
        generate_packet(512 * 2),
    ]);
}

/// The headline fuzz case: 256 packets sized 256, 512, ... up to 65536 bytes,
/// exercising deep fragmentation and many window cycles.
#[test]
fn all_the_packets() {
    let packets: Vec<Vec<u8>> = (1..=256).map(|i| generate_packet(i * 256)).collect();
    assert_roundtrip(&packets);
}

/// The same under a cipher, with data that would be taken for a bundle if it were sent in
/// the clear.
#[test]
fn enciphered_packets_round_trip() {
    let mut packets: Vec<Vec<u8>> = (1..=64).map(generate_packet).collect();
    packets.push(vec![0x00, 0x19, 1, 2, 3]);
    packets.push(vec![0; 600]);
    packets.push(generate_packet(4000));
    assert_roundtrip_under(&packets, Some(Rc4KeyState::new(&[1, 2, 3, 4, 5])));
}

/// What arrives late, twice or in another order comes out once and in order; what is
/// lost is sent again.
#[test]
fn lossy_wire_delivers_in_order() {
    let start = Instant { nanos: 0 };
    let mut output = ReliableDataOutputChannel::new(
        OutputConfig {
            max_data_length: 20,
            max_queued_outgoing: 16,
            ack_wait: Duration::from_millis(50),
        },
        None,
        start,
    );
    let mut input = ReliableDataInputChannel::new(
        InputConfig {
            max_queued_incoming: 16,
            max_ack_delay: Duration { nanos: 0 },
            ..InputConfig::default()
        },
        None,
        start,
    );
    let packets: Vec<Vec<u8>> = (1..=40).map(|i| generate_packet(i * 3)).collect();
    for packet in &packets {
        output.enqueue_data(packet);
    }
    let mut received: Vec<Vec<u8>> = Vec::new();
    let mut state: u32 = 99;
    let mut now = start;
    for _ in 0..4000 {
        now = Instant {
            nanos: now.nanos + 10_000_000,
        };
        output.run_tick(now);
        let mut batch = output.take_outgoing();
        batch.reverse();
        let again: Vec<_> = batch.iter().step_by(3).cloned().collect();
        batch.extend(again);
        for pkt in batch {
            state = state.wrapping_mul(1_664_525).wrapping_add(1_013_904_223);
            if state >> 30 == 0 {
                continue;
            }
            match pkt.op_code {
                OpCode::ReliableData => input.handle_reliable_data(pkt.payload, now).unwrap(),
                _ => input
                    .handle_reliable_data_fragment(pkt.payload, now)
                    .unwrap(),
            }
        }
        received.extend(input.take_app_data().iter().map(|d| d.to_vec()));
        assert_eq!(received[..], packets[..received.len()]);
        input.run_tick(now);
        for ack in input.take_outgoing() {
            state = state.wrapping_mul(1_664_525).wrapping_add(1_013_904_223);
            if state >> 30 == 0 {
                continue;
            }
            match ack.op_code {
                OpCode::Acknowledge => output.notify_of_acknowledge(ack.sequence, now),
                _ => output.notify_of_acknowledge_all(ack.sequence, now),
            }
        }
    }
    assert_eq!(received, packets);
}

/// A lost acknowledgement does not stop the channels: the sender sends again, and the
/// receiver answers.
#[test]
fn lost_acknowledgement_is_sent_again() {
    let mut now = Instant { nanos: 0 };
    let mut output = ReliableDataOutputChannel::new(
        OutputConfig {
            max_queued_outgoing: 1,
            ..OutputConfig::default()
        },
        None,
        now,
    );
    let mut input = ReliableDataInputChannel::new(InputConfig::default(), None, now);
    output.enqueue_data(b"first");
    output.enqueue_data(b"second");
    let mut lost = false;
    let mut received: Vec<Vec<u8>> = Vec::new();
    for _ in 0..200 {
        now = Instant {
            nanos: now.nanos + 10_000_000,
        };
        output.run_tick(now);
        for pkt in output.take_outgoing() {
            input.handle_reliable_data(pkt.payload, now).unwrap();
        }
        input.run_tick(now);
        for ack in input.take_outgoing() {
            if lost {
                output.notify_of_acknowledge_all(ack.sequence, now);
            }
            lost = true;
        }
        received.extend(input.take_app_data().iter().map(|d| d.to_vec()));
    }
    assert_eq!(received, vec![b"first".to_vec(), b"second".to_vec()]);
    assert_eq!(output.queued_len(), 0);
}
