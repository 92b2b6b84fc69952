//! Tests of the reliable data output channel.
use soe_protocol::channel::output::{FRAGMENT_LENGTH_SIZE, SEQUENCE_SIZE};
use soe_protocol::channel::{OutgoingReliable, OutputConfig, ReliableDataOutputChannel};
use soe_protocol::rc4::Rc4KeyState;
use soe_protocol::time::{Duration, Instant};
use soe_protocol::OpCode;

const MAX_DATA_LENGTH: usize = 506; // 512 (udp) - 2 (op) - 2 (seq) - 2 (crc)
const FRAGMENT_WINDOW_SIZE: usize = 8;

struct Clock {
    now: Instant,
}

impl Clock {
    fn new() -> Self {
        Self {
            now: Instant { nanos: 7_000_000_000 },
        }
    }
    fn advance(&mut self, by: Duration) -> Instant {
        self.now = Instant {
            nanos: self.now.nanos + by.nanos,
        };
        self.now
    }
}

fn new_channel(clock: &Clock) -> ReliableDataOutputChannel {
    let config = OutputConfig {
        max_data_length: MAX_DATA_LENGTH + SEQUENCE_SIZE,
        max_queued_outgoing: FRAGMENT_WINDOW_SIZE,
        ack_wait: Duration::from_millis(500),
    };
    ReliableDataOutputChannel::new(config, None, clock.now)
}

/// A deterministic pseudo-random byte buffer.
fn generate_packet(size: usize) -> Vec<u8> {
    let mut state: u32 = 0x1234_5678 ^ size as u32;
    (0..size)
        .map(|_| {
            state = state.wrapping_mul(1_664_525).wrapping_add(1_013_904_223);
            (state >> 24) as u8
        })
        .collect()
}

/// Asserts that the data carried by `packets` (stripping the sequence and, for
/// the first packet if `expect_master_fragment`, the length prefix) concatenates
/// to exactly `buffer`.
fn assert_packets_equal_buffer(
    packets: &[OutgoingReliable],
    buffer: &[u8],
    mut expect_master_fragment: bool,
) {
    let mut position = 0;
    for packet in packets {
        let data_offset = SEQUENCE_SIZE
            + if expect_master_fragment {
                FRAGMENT_LENGTH_SIZE
            } else {
                0
            };
        expect_master_fragment = false;

        let data = &packet.payload[data_offset..];
        assert!(
            position + data.len() <= buffer.len(),
            "received more data than expected"
        );
        assert_eq!(&buffer[position..position + data.len()], data);
        position += data.len();
    }
    assert_eq!(position, buffer.len(), "did not receive the whole buffer");
}

#[test]
fn repeats_data_on_ack_failure() {
    let mut clock = Clock::new();
    let mut ch = new_channel(&clock);

    let fragment_count = 4;
    let packet_length = MAX_DATA_LENGTH - 4 + MAX_DATA_LENGTH * (fragment_count - 1);
    let packet = generate_packet(packet_length);

    ch.enqueue_data(&packet);
    ch.run_tick(clock.advance(Duration::from_millis(1)));
    assert_packets_equal_buffer(&ch.take_outgoing(), &packet, true);

    // Don't acknowledge; after the ack wait elapses the data is resent in full.
    ch.run_tick(clock.advance(Duration::from_millis(600)));
    assert_packets_equal_buffer(&ch.take_outgoing(), &packet, true);
}

#[test]
fn repeats_data_from_arbitrary_position_on_ack_delay() {
    let mut clock = Clock::new();
    let mut ch = new_channel(&clock);

    let fragment_count = 4;
    let packet_length = MAX_DATA_LENGTH - 4 + MAX_DATA_LENGTH * (fragment_count - 1);
    let packet = generate_packet(packet_length);

    ch.enqueue_data(&packet);
    ch.run_tick(clock.advance(Duration::from_millis(1)));
    assert_packets_equal_buffer(&ch.take_outgoing(), &packet, true);

    ch.notify_of_acknowledge_all(1, clock.advance(Duration::from_millis(1)));

    ch.run_tick(clock.advance(Duration::from_millis(600)));
    // The master fragment (MAX-4) and the next fragment (MAX) were acknowledged.
    let expected_consumed = MAX_DATA_LENGTH - 4 + MAX_DATA_LENGTH;
    assert_packets_equal_buffer(&ch.take_outgoing(), &packet[expected_consumed..], false);
}

#[test]
fn repeats_full_window_from_arbitrary_position_on_ack_delay() {
    let mut clock = Clock::new();
    let mut ch = new_channel(&clock);

    let fragment_count = FRAGMENT_WINDOW_SIZE * 2;
    let packet_length = MAX_DATA_LENGTH - 4 + MAX_DATA_LENGTH * (fragment_count - 1);
    let packet = generate_packet(packet_length);

    ch.enqueue_data(&packet);
    ch.run_tick(clock.advance(Duration::from_millis(1)));

    // Only a full window of packets is sent initially.
    let expected_receive_length =
        MAX_DATA_LENGTH - 4 + MAX_DATA_LENGTH * (FRAGMENT_WINDOW_SIZE - 1);
    assert_packets_equal_buffer(
        &ch.take_outgoing(),
        &packet[..expected_receive_length],
        true,
    );

    ch.notify_of_acknowledge_all(
        (FRAGMENT_WINDOW_SIZE - 2) as u16,
        clock.advance(Duration::from_millis(1)),
    );
    ch.run_tick(clock.advance(Duration::from_millis(600)));

    let expected_consumed = MAX_DATA_LENGTH - 4 + MAX_DATA_LENGTH * (FRAGMENT_WINDOW_SIZE - 2);
    let expected_repeat_length = MAX_DATA_LENGTH * FRAGMENT_WINDOW_SIZE;
    assert_packets_equal_buffer(
        &ch.take_outgoing(),
        &packet[expected_consumed..expected_consumed + expected_repeat_length],
        false,
    );
}

#[test]
fn single_small_packet_is_not_fragmented() {
    let mut clock = Clock::new();
    let mut ch = new_channel(&clock);

    let data = generate_packet(32);
    ch.enqueue_data(&data);
    ch.run_tick(clock.advance(Duration::from_millis(1)));

    let outgoing = ch.take_outgoing();
    assert_eq!(outgoing.len(), 1);
    assert_eq!(outgoing[0].op_code, OpCode::ReliableData);
    // No length prefix: payload is [seq u16][data].
    assert_eq!(&outgoing[0].payload[SEQUENCE_SIZE..], &data[..]);
}

#[test]
fn single_ack_removes_specific_packet() {
    let mut clock = Clock::new();
    let mut ch = new_channel(&clock);

    let packet_length = MAX_DATA_LENGTH - 4 + MAX_DATA_LENGTH * 3;
    let packet = generate_packet(packet_length);
    ch.enqueue_data(&packet);
    assert_eq!(ch.queued_len(), 4);

    ch.run_tick(clock.advance(Duration::from_millis(1)));
    let _ = ch.take_outgoing();

    ch.notify_of_acknowledge(2, clock.advance(Duration::from_millis(1)));
    assert_eq!(ch.queued_len(), 3);
    assert_eq!(ch.stats().actual_acknowledge_count, 1);
}

/// No more packets are in flight than the window allows, however often the channel is
/// ticked.
#[test]
fn in_flight_packets_stay_within_the_window() {
    let mut clock = Clock::new();
    let mut ch = new_channel(&clock);
    ch.enqueue_data(&generate_packet(MAX_DATA_LENGTH * 20));
    for _ in 0..5 {
        ch.run_tick(clock.advance(Duration::from_millis(1)));
    }
    assert_eq!(ch.take_outgoing().len(), FRAGMENT_WINDOW_SIZE);
    assert_eq!(ch.stats().total_sent, FRAGMENT_WINDOW_SIZE as u64);

    // What is acknowledged makes room.
    ch.notify_of_acknowledge_all(2, clock.advance(Duration::from_millis(1)));
    ch.run_tick(clock.advance(Duration::from_millis(1)));
    assert_eq!(ch.take_outgoing().len(), 3);
}

/// The packets of fragmented data on the wire.
#[test]
fn fragments_on_the_wire() {
    let mut clock = Clock::new();
    let mut ch = ReliableDataOutputChannel::new(
        OutputConfig {
            max_data_length: 8,
            ..OutputConfig::default()
        },
        None,
        clock.now,
    );
    ch.enqueue_data(&[1, 2, 3, 4, 5, 6, 7, 8, 9]);
    ch.enqueue_data(&[]);
    assert_eq!(ch.queued_len(), 3);
    assert_eq!(ch.total_sequence(), 3);
    ch.run_tick(clock.advance(Duration::from_millis(1)));
    let out = ch.take_outgoing();
    assert_eq!(&out[0].payload[..], &[0, 0, 0, 0, 0, 9, 1, 2]);
    assert_eq!(&out[1].payload[..], &[0, 1, 3, 4, 5, 6, 7, 8]);
    assert_eq!(&out[2].payload[..], &[0, 2, 9]);
    for packet in &out {
        assert_eq!(packet.op_code, OpCode::ReliableDataFragment);
    }
}

/// Enciphered data that starts with a zero byte gets one more in front.
#[test]
fn enciphered_zero_is_padded() {
    let clock = Clock::new();
    // The key stream of "Key" starts with EB.
    let key = Rc4KeyState::new(b"Key");
    let mut ch = ReliableDataOutputChannel::new(OutputConfig::default(), Some(key), clock.now);
    ch.enqueue_data(&[0xEB]);
    // The next key stream byte is 9F.
    ch.enqueue_data(&[0x9E]);
    ch.run_tick(clock.now);
    let out = ch.take_outgoing();
    assert_eq!(&out[0].payload[..], &[0, 0, 0, 0]);
    assert_eq!(&out[1].payload[..], &[0, 1, 1]);
}

/// Acknowledgements of what is not there are counted as received, and move nothing.
#[test]
fn unknown_acknowledgement_moves_nothing() {
    let mut clock = Clock::new();
    let mut ch = new_channel(&clock);
    ch.enqueue_data(&generate_packet(10));
    ch.notify_of_acknowledge(5, clock.advance(Duration::from_millis(1)));
    assert_eq!(ch.queued_len(), 1);
    assert_eq!(ch.stats().incoming_acknowledge_count, 1);
    assert_eq!(ch.stats().actual_acknowledge_count, 0);
    assert_eq!(ch.max_client_sequence(), 5);
}

/// Packets that are sent again are counted as such.
#[test]
fn resent_packets_are_counted() {
    let mut clock = Clock::new();
    let mut ch = new_channel(&clock);
    ch.enqueue_data(&generate_packet(10));
    ch.enqueue_data(&generate_packet(11));
    ch.run_tick(clock.advance(Duration::from_millis(1)));
    ch.enqueue_data(&generate_packet(12));
    ch.run_tick(clock.advance(Duration::from_millis(600)));
    assert_eq!(ch.stats().total_sent, 5);
    assert_eq!(ch.stats().total_resent, 2);
}

#[test]
fn default_output_config() {
    let config = OutputConfig::default();
    assert_eq!(config.max_data_length, 508);
    assert_eq!(config.max_queued_outgoing, 196);
    assert_eq!(config.ack_wait, Duration::from_millis(500));
}
