//! Tests of the reliable data input channel.
use bytes::Bytes;
use soe_protocol::channel::{InputConfig, OutgoingContextual, ReliableDataInputChannel};
use soe_protocol::constants::MULTI_DATA_INDICATOR;
use soe_protocol::rc4::Rc4KeyState;
use soe_protocol::time::{Duration, Instant};
use soe_protocol::{Error, OpCode};

/// A monotonic test clock that advances by 1ms on each read, so that
/// zero-delay ack logic fires deterministically.
struct Clock {
    now: Instant,
}

impl Clock {
    fn new() -> Self {
        Self {
            now: Instant { nanos: 5_000_000_000 },
        }
    }
    fn tick(&mut self) -> Instant {
        self.now = Instant {
            nanos: self.now.nanos + 1_000_000,
        };
        self.now
    }
}

fn config(acknowledge_all_data: bool) -> InputConfig {
    InputConfig {
        acknowledge_all_data,
        max_ack_delay: Duration { nanos: 0 },
        ..InputConfig::default()
    }
}

/// Builds a reliable data/fragment packet body (sequence + optional complete
/// length + data), returning (packet, data).
fn data_fragment(sequence: u16, complete_len: Option<u32>, data_len: usize) -> (Vec<u8>, Vec<u8>) {
    let data: Vec<u8> = (0..data_len)
        .map(|i| (i as u8).wrapping_mul(7).wrapping_add(sequence as u8))
        .collect();
    let mut buf = Vec::new();
    buf.extend_from_slice(&sequence.to_be_bytes());
    if let Some(cl) = complete_len {
        buf.extend_from_slice(&cl.to_be_bytes());
    }
    buf.extend_from_slice(&data);
    (buf, data)
}

/// Runs a tick, collects any newly-emitted acks into `pending`, then asserts the
/// front of `pending` matches the expected op/seq and pops it.
fn assert_pop_ack(
    ch: &mut ReliableDataInputChannel,
    clock: &mut Clock,
    pending: &mut Vec<OutgoingContextual>,
    expected_sequence: u16,
    expect_all: bool,
) {
    ch.run_tick(clock.tick());
    pending.extend(ch.take_outgoing());
    assert!(!pending.is_empty(), "expected an ack to be pending");
    let ack = pending.remove(0);
    let expected_op = if expect_all {
        OpCode::AcknowledgeAll
    } else {
        OpCode::Acknowledge
    };
    assert_eq!(ack.op_code, expected_op);
    assert_eq!(ack.sequence, expected_sequence);
}

const DATA_LENGTH: usize = 16;

fn new_channel(clock: &Clock, ack_all: bool) -> ReliableDataInputChannel {
    ReliableDataInputChannel::new(config(ack_all), None, clock.now)
}

fn data(ch: &mut ReliableDataInputChannel, packet: &[u8], now: Instant) {
    ch.handle_reliable_data(Bytes::copy_from_slice(packet), now)
        .expect("valid reliable data");
}

fn fragment(ch: &mut ReliableDataInputChannel, packet: &[u8], now: Instant) {
    ch.handle_reliable_data_fragment(Bytes::copy_from_slice(packet), now)
        .expect("valid reliable data fragment");
}

fn run_sequential_fragment_insert(ack_all: bool) {
    let mut clock = Clock::new();
    let mut ch = new_channel(&clock, ack_all);
    let mut pending: Vec<OutgoingContextual> = Vec::new();

    let (f0, d0) = data_fragment(0, Some((DATA_LENGTH * 3) as u32), DATA_LENGTH);
    let (f1, d1) = data_fragment(1, None, DATA_LENGTH);
    let (f2, d2) = data_fragment(2, None, DATA_LENGTH);

    fragment(&mut ch, &f0, clock.tick());
    assert_pop_ack(&mut ch, &mut clock, &mut pending, 0, !ack_all);
    assert!(ch.take_app_data().is_empty());

    fragment(&mut ch, &f1, clock.tick());
    assert_pop_ack(&mut ch, &mut clock, &mut pending, 1, !ack_all);
    assert!(ch.take_app_data().is_empty());

    fragment(&mut ch, &f2, clock.tick());
    assert_pop_ack(&mut ch, &mut clock, &mut pending, 2, !ack_all);
    let app = ch.take_app_data();
    assert_eq!(app.len(), 1);

    let stitched = &app[0];
    assert_eq!(&stitched[0..DATA_LENGTH], &d0[..]);
    assert_eq!(&stitched[DATA_LENGTH..DATA_LENGTH * 2], &d1[..]);
    assert_eq!(&stitched[DATA_LENGTH * 2..], &d2[..]);
    assert!(pending.is_empty(), "no superfluous acks");
}

#[test]
fn sequential_fragment_insert() {
    run_sequential_fragment_insert(true);
    run_sequential_fragment_insert(false);
}

fn run_non_sequential_fragment_insert(ack_all: bool) {
    let mut clock = Clock::new();
    let mut ch = new_channel(&clock, ack_all);
    let mut pending: Vec<OutgoingContextual> = Vec::new();

    let (f0, d0) = data_fragment(0, Some((DATA_LENGTH * 3) as u32), DATA_LENGTH);
    let (f1, d1) = data_fragment(1, None, DATA_LENGTH);
    let (f2, d2) = data_fragment(2, None, DATA_LENGTH);

    fragment(&mut ch, &f2, clock.tick());
    assert_pop_ack(&mut ch, &mut clock, &mut pending, 2, false);

    fragment(&mut ch, &f0, clock.tick());
    assert_pop_ack(&mut ch, &mut clock, &mut pending, 0, !ack_all);
    assert!(ch.take_app_data().is_empty());

    fragment(&mut ch, &f1, clock.tick());
    assert_pop_ack(
        &mut ch,
        &mut clock,
        &mut pending,
        if ack_all { 1 } else { 2 },
        !ack_all,
    );
    let app = ch.take_app_data();
    assert_eq!(app.len(), 1);

    let stitched = &app[0];
    assert_eq!(&stitched[0..DATA_LENGTH], &d0[..]);
    assert_eq!(&stitched[DATA_LENGTH..DATA_LENGTH * 2], &d1[..]);
    assert_eq!(&stitched[DATA_LENGTH * 2..], &d2[..]);
    assert!(pending.is_empty(), "no superfluous acks");
}

#[test]
fn non_sequential_fragment_insert() {
    run_non_sequential_fragment_insert(true);
    run_non_sequential_fragment_insert(false);
}

fn run_non_fragment_insert(ack_all: bool) {
    let mut clock = Clock::new();
    let mut ch = new_channel(&clock, ack_all);
    let mut pending: Vec<OutgoingContextual> = Vec::new();

    let (p0, d0) = data_fragment(0, None, DATA_LENGTH);
    let (p1, d1) = data_fragment(1, None, DATA_LENGTH);
    let (p2, d2) = data_fragment(2, None, DATA_LENGTH);

    data(&mut ch, &p0, clock.tick());
    assert_pop_ack(&mut ch, &mut clock, &mut pending, 0, !ack_all);
    let app = ch.take_app_data();
    assert_eq!(app, vec![d0]);

    data(&mut ch, &p2, clock.tick());
    assert_pop_ack(&mut ch, &mut clock, &mut pending, 2, false);

    data(&mut ch, &p1, clock.tick());
    assert_pop_ack(
        &mut ch,
        &mut clock,
        &mut pending,
        if ack_all { 1 } else { 2 },
        !ack_all,
    );
    let app = ch.take_app_data();
    assert_eq!(app, vec![d1, d2]);
    assert!(pending.is_empty(), "no superfluous acks");
}

#[test]
fn non_fragment_insert() {
    run_non_fragment_insert(true);
    run_non_fragment_insert(false);
}

fn run_fragmented_insert_of_two_datas(ack_all: bool) {
    let mut clock = Clock::new();
    let mut ch = new_channel(&clock, ack_all);
    let mut pending: Vec<OutgoingContextual> = Vec::new();

    let (f0, d0) = data_fragment(0, Some((DATA_LENGTH * 2) as u32), DATA_LENGTH);
    let (f1, d1) = data_fragment(1, None, DATA_LENGTH);
    let (f2, d2) = data_fragment(2, Some((DATA_LENGTH * 2) as u32), DATA_LENGTH);
    let (f3, d3) = data_fragment(3, None, DATA_LENGTH);

    fragment(&mut ch, &f0, clock.tick());
    assert_pop_ack(&mut ch, &mut clock, &mut pending, 0, !ack_all);
    assert!(ch.take_app_data().is_empty());

    fragment(&mut ch, &f1, clock.tick());
    assert_pop_ack(&mut ch, &mut clock, &mut pending, 1, !ack_all);
    let app = ch.take_app_data();
    assert_eq!(app.len(), 1);
    assert_eq!(&app[0][..DATA_LENGTH], &d0[..]);
    assert_eq!(&app[0][DATA_LENGTH..], &d1[..]);

    fragment(&mut ch, &f3, clock.tick());
    assert_pop_ack(&mut ch, &mut clock, &mut pending, 3, false);
    assert!(ch.take_app_data().is_empty());

    fragment(&mut ch, &f2, clock.tick());
    assert_pop_ack(
        &mut ch,
        &mut clock,
        &mut pending,
        if ack_all { 2 } else { 3 },
        !ack_all,
    );
    let app = ch.take_app_data();
    assert_eq!(app.len(), 1);
    assert_eq!(&app[0][..DATA_LENGTH], &d2[..]);
    assert_eq!(&app[0][DATA_LENGTH..], &d3[..]);
}

#[test]
fn fragmented_insert_of_two_datas() {
    run_fragmented_insert_of_two_datas(true);
    run_fragmented_insert_of_two_datas(false);
}

fn run_sequence_waiting_on_data(ack_all: bool) {
    let mut clock = Clock::new();
    let mut ch = new_channel(&clock, ack_all);
    let mut pending: Vec<OutgoingContextual> = Vec::new();

    let (p0, d0) = data_fragment(0, None, DATA_LENGTH);
    let (f1, d1) = data_fragment(1, Some((DATA_LENGTH * 2) as u32), DATA_LENGTH);
    let (f2, d2) = data_fragment(2, None, DATA_LENGTH);

    fragment(&mut ch, &f1, clock.tick());
    fragment(&mut ch, &f2, clock.tick());
    assert_pop_ack(&mut ch, &mut clock, &mut pending, 1, false);
    assert_pop_ack(&mut ch, &mut clock, &mut pending, 2, false);

    data(&mut ch, &p0, clock.tick());
    assert_pop_ack(
        &mut ch,
        &mut clock,
        &mut pending,
        if ack_all { 0 } else { 2 },
        !ack_all,
    );

    let app = ch.take_app_data();
    assert_eq!(app.len(), 2);
    assert_eq!(app[0], d0);
    assert_eq!(&app[1][..DATA_LENGTH], &d1[..]);
    assert_eq!(&app[1][DATA_LENGTH..], &d2[..]);
}

#[test]
fn sequence_waiting_on_data() {
    run_sequence_waiting_on_data(true);
    run_sequence_waiting_on_data(false);
}

fn run_multi_data(ack_all: bool) {
    let mut clock = Clock::new();
    let mut ch = new_channel(&clock, ack_all);
    let mut pending: Vec<OutgoingContextual> = Vec::new();

    // [seq u16][00 19][len=1][2][len=1][4]. A data-bundle length of 1 encodes
    // as a single 0x01 byte.
    let mut multi = vec![0u8, 0]; // sequence 0
    multi.extend_from_slice(&MULTI_DATA_INDICATOR);
    multi.extend_from_slice(&[1, 2]); // length 1, data byte 2
    multi.extend_from_slice(&[1, 4]); // length 1, data byte 4

    data(&mut ch, &multi, clock.tick());
    assert_pop_ack(&mut ch, &mut clock, &mut pending, 0, !ack_all);
    assert_eq!(ch.take_app_data(), vec![vec![2u8], vec![4u8]]);

    multi[1] = 0x01; // increment sequence to 1
    data(&mut ch, &multi, clock.tick());
    assert_pop_ack(&mut ch, &mut clock, &mut pending, 1, !ack_all);
    assert_eq!(ch.take_app_data(), vec![vec![2u8], vec![4u8]]);
}

#[test]
fn multi_data() {
    run_multi_data(true);
    run_multi_data(false);
}

/// Once the window advances past the 16-bit boundary, the ack-all throttle must keep
/// working: no redundant `AcknowledgeAll` on every single tick for the rest of the
/// connection.
#[test]
fn ack_all_throttled_after_sequence_wraparound() {
    let mut clock = Clock::new();
    // Not ack-all-per-packet mode, so ack-alls come from run_tick.
    let mut ch = new_channel(&clock, false);

    // Feed enough in-order reliable packets to push the window past 2^16.
    let total: u32 = 65_540;
    for i in 0..total {
        let (pkt, _) = data_fragment((i & 0xFFFF) as u16, None, DATA_LENGTH);
        data(&mut ch, &pkt, clock.tick());
        // Drop accumulated acks/app-data to keep memory bounded.
        ch.take_outgoing();
        ch.take_app_data();
    }

    // First tick after the data: a single ack-all for the current window is
    // expected (and arms the throttle).
    ch.run_tick(clock.tick());
    let first = ch.take_outgoing();
    assert_eq!(first.len(), 1, "expected exactly one ack-all");
    assert_eq!(first[0].op_code, OpCode::AcknowledgeAll);
    assert_eq!(first[0].sequence, ((total - 1) & 0xFFFF) as u16);

    // No new data has arrived, so subsequent ticks must NOT re-emit an ack-all.
    // (max_ack_delay is ZERO in the test config, so any emission here is the bug.)
    for _ in 0..5 {
        ch.run_tick(clock.tick());
        assert!(
            ch.take_outgoing().is_empty(),
            "ack-all throttle broke after wraparound: redundant ack emitted"
        );
    }
}

/// A master fragment that ends within its length is an error, and changes nothing but
/// the number of packets received.
#[test]
fn truncated_master_fragment_is_an_error() {
    let mut clock = Clock::new();
    let mut ch = new_channel(&clock, false);
    let result =
        ch.handle_reliable_data_fragment(Bytes::from_static(&[0, 0, 0xAB, 0xCD]), clock.tick());
    assert_eq!(result, Err(Error::UnexpectedEnd));
    assert_eq!(ch.window_start(), 0);
    assert_eq!(ch.stats().total_received, 1);
    assert!(ch.take_app_data().is_empty());
    assert!(ch.take_outgoing().is_empty());

    // The channel goes on from there.
    let (p0, d0) = data_fragment(0, None, DATA_LENGTH);
    data(&mut ch, &p0, clock.tick());
    assert_eq!(ch.take_app_data(), vec![d0]);
}

/// A packet without a whole sequence is counted and dropped.
#[test]
fn packet_without_sequence_is_dropped() {
    let mut clock = Clock::new();
    let mut ch = new_channel(&clock, true);
    data(&mut ch, &[7], clock.tick());
    assert_eq!(ch.stats().total_received, 1);
    assert_eq!(ch.window_start(), 0);
    assert!(ch.take_outgoing().is_empty());
}

/// A sequence beyond the window is dropped without an acknowledgement; the last one in
/// the window is stashed.
#[test]
fn window_has_an_end() {
    let mut clock = Clock::new();
    let mut ch = new_channel(&clock, true);
    let (beyond, _) = data_fragment(257, None, DATA_LENGTH);
    data(&mut ch, &beyond, clock.tick());
    assert!(ch.take_outgoing().is_empty());

    let (last, _) = data_fragment(256, None, DATA_LENGTH);
    data(&mut ch, &last, clock.tick());
    let acks = ch.take_outgoing();
    assert_eq!(acks.len(), 1);
    assert_eq!(acks[0].sequence, 256);
    assert_eq!(ch.stats().out_of_order_count, 1);

    // Once more: the slot is taken.
    data(&mut ch, &last, clock.tick());
    assert_eq!(ch.stats().duplicate_count, 1);
    assert_eq!(ch.stats().out_of_order_count, 2);
}

/// A packet that was processed before is a duplicate. The remote is told once more how
/// far things have got, but not too frequently.
#[test]
fn repeated_packet_is_acknowledged_again_after_the_delay() {
    let mut clock = Clock::new();
    let mut ch = ReliableDataInputChannel::new(
        InputConfig {
            max_ack_delay: Duration::from_millis(10),
            ..InputConfig::default()
        },
        None,
        clock.now,
    );
    let (p0, _) = data_fragment(0, None, DATA_LENGTH);
    data(&mut ch, &p0, clock.tick());
    assert_eq!(ch.take_app_data().len(), 1);

    // Within the delay it is only counted.
    data(&mut ch, &p0, clock.tick());
    assert!(ch.take_app_data().is_empty());
    assert_eq!(ch.stats().duplicate_count, 1);
    assert!(ch.take_outgoing().is_empty());

    // Past the delay it is answered.
    let late = Instant {
        nanos: clock.now.nanos + 11_000_000,
    };
    data(&mut ch, &p0, late);
    assert_eq!(ch.stats().duplicate_count, 2);
    let acks = ch.take_outgoing();
    assert_eq!(acks.len(), 1);
    assert_eq!(acks[0].op_code, OpCode::AcknowledgeAll);
    assert_eq!(acks[0].sequence, 0);
    assert_eq!(ch.stats().acknowledge_count, 1);

    // And not again within the delay after that.
    data(&mut ch, &p0, late);
    assert_eq!(ch.stats().duplicate_count, 3);
    assert!(ch.take_outgoing().is_empty());
}

/// Two repeats within the delay after the start draw at most one answer.
#[test]
fn repeats_within_the_delay_draw_at_most_one_answer() {
    let start = Instant { nanos: 0 };
    let soon = Instant { nanos: 1_000_000 };
    let mut ch = ReliableDataInputChannel::new(InputConfig::default(), None, start);
    data(&mut ch, &[0, 0, 1], start);
    data(&mut ch, &[0, 0, 1], soon);
    data(&mut ch, &[0, 0, 1], soon);
    assert_eq!(ch.stats().duplicate_count, 2);
    assert!(ch.take_outgoing().len() <= 1);
}

/// Every acknowledgement that is emitted counts.
#[test]
fn every_acknowledgement_is_counted() {
    let mut clock = Clock::new();
    let mut ch = new_channel(&clock, true);
    for i in 0..3u16 {
        let (p, _) = data_fragment(i, None, DATA_LENGTH);
        data(&mut ch, &p, clock.tick());
    }
    assert_eq!(ch.take_outgoing().len(), 3);
    assert_eq!(ch.stats().acknowledge_count, 3);
    assert_eq!(ch.stats().total_received_bytes, 3 * DATA_LENGTH as u64);
}

/// Half of the acknowledgement window makes an `AcknowledgeAll` due, whatever the time.
#[test]
fn half_a_window_makes_an_acknowledgement_due() {
    let mut clock = Clock::new();
    let mut ch = ReliableDataInputChannel::new(
        InputConfig {
            data_ack_window: 4,
            max_ack_delay: Duration::from_millis(60_000),
            ..InputConfig::default()
        },
        None,
        clock.now,
    );
    let (p0, _) = data_fragment(0, None, DATA_LENGTH);
    data(&mut ch, &p0, clock.tick());
    ch.run_tick(clock.tick());
    assert!(ch.take_outgoing().is_empty());
    let (p1, _) = data_fragment(1, None, DATA_LENGTH);
    data(&mut ch, &p1, clock.tick());
    ch.run_tick(clock.tick());
    let acks = ch.take_outgoing();
    assert_eq!(acks.len(), 1);
    assert_eq!(acks[0].sequence, 1);
}

/// A bundle that ends within a data unit hands out what comes before.
#[test]
fn malformed_bundle_hands_out_what_can_be_read() {
    let mut clock = Clock::new();
    let mut ch = new_channel(&clock, false);
    data(&mut ch, &[0, 0, 0x00, 0x19, 1, 2, 9, 4], clock.tick());
    assert_eq!(ch.take_app_data(), vec![vec![2u8]]);
    assert_eq!(ch.window_start(), 1);
}

/// Enciphered data is deciphered, without the zero byte that may pad it.
#[test]
fn enciphered_data_is_deciphered() {
    let mut clock = Clock::new();
    let key = Rc4KeyState::new(b"Key");
    let mut ch = ReliableDataInputChannel::new(config(false), Some(key), clock.now);
    // RC4 under "Key" enciphers "Plaintext" to BBF316E8D940AF0AD3.
    let cipher = [0xBB, 0xF3, 0x16, 0xE8, 0xD9, 0x40, 0xAF, 0x0A, 0xD3];
    let mut packet = vec![0u8, 0, 0];
    packet.extend_from_slice(&cipher);
    data(&mut ch, &packet, clock.tick());
    assert_eq!(ch.take_app_data(), vec![b"Plaintext".to_vec()]);
}
