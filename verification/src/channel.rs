//! The two halves of reliable data: sending it until it is acknowledged, and putting
//! what arrives back in order.
use vstd::prelude::*;

use crate::constants::MAX_SEQUENCE;

pub mod delivery;
pub mod dispatch;
pub mod input;
pub mod output;
pub mod receiving;
pub mod schedule;

pub use input::{DataInputStats, InputConfig, OutgoingContextual, ReliableDataInputChannel};
pub use output::{DataOutputStats, OutgoingReliable, OutputConfig, ReliableDataOutputChannel};

verus! {

/// How many sequence numbers the 16 bits of a packet tell apart.
pub const SEQUENCE_SPAN: i64 = 0x1_0000;

/// The sequence that a packet stands for. A packet holds the low 16 bits of its
/// sequence; the rest is taken from `current`, one span further down where the sequence
/// would be more than `max_queued` ahead, or further up where it would be more than
/// `max_queued` behind.
pub open spec fn true_sequence(packet_sequence: u16, current: int, max_queued: int) -> int {
    let near = current - current % 0x1_0000 + packet_sequence;
    let lowered = if near > current + max_queued {
        near - 0x1_0000
    } else {
        near
    };
    if lowered < current - max_queued {
        lowered + 0x1_0000
    } else {
        lowered
    }
}

/// A counter that `n` more were counted with.
pub open spec fn counted(counter: u64, n: nat) -> u64 {
    ((counter + n) % 0x1_0000_0000_0000_0000) as u64
}

/// The 16 bits of a sequence that its packet holds.
pub open spec fn packet_sequence_of(sequence: int) -> u16 {
    (sequence % 0x1_0000) as u16
}

/// A sequence is recovered from the 16 bits that its packet holds, as long as it is no
/// further than `max_queued` from `current`.
pub proof fn sequence_recovered(sequence: int, current: int, max_queued: int)
    requires
        0 <= max_queued <= 0x7FFF,
        current - max_queued <= sequence <= current + max_queued,
    ensures
        true_sequence(packet_sequence_of(sequence), current, max_queued) == sequence,
{
}

/// Whatever is recovered from a packet agrees with the packet on its 16 bits.
pub proof fn recovered_agrees(packet_sequence: u16, current: int, max_queued: int)
    ensures
        packet_sequence_of(true_sequence(packet_sequence, current, max_queued))
            == packet_sequence,
        current - 0x1_0000 <= true_sequence(packet_sequence, current, max_queued) + 0x1_0000,
        true_sequence(packet_sequence, current, max_queued) < current + 2 * 0x1_0000,
{
}

/// Works out the sequence that a packet stands for.
pub fn true_incoming_sequence(packet_sequence: u16, current: i64, max_queued: i64) -> (s: i64)
    requires
        0 <= current <= 2 * MAX_SEQUENCE,
        0 <= max_queued <= MAX_SEQUENCE,
    ensures
        s == true_sequence(packet_sequence, current as int, max_queued as int),
{
    let mut s: i64 = current - current % SEQUENCE_SPAN + packet_sequence as i64;
    if s > current + max_queued {
        s = s - SEQUENCE_SPAN;
    }
    if s < current - max_queued {
        s = s + SEQUENCE_SPAN;
    }
    s
}

/// The sequence that a packet stands for is the one, among the span of sequences from
/// `max_queued` behind `current` on, with the 16 bits of the packet.
pub proof fn sequence_is_next_in_span(packet_sequence: u16, current: int, max_queued: int)
    requires
        0 <= max_queued <= 0x7FFF,
    ensures
        current - max_queued <= true_sequence(packet_sequence, current, max_queued) < current
            - max_queued + 0x1_0000,
        true_sequence(packet_sequence, current, max_queued) % 0x1_0000 == packet_sequence,
{
}

/// However far sequences are accepted from, one within that distance that differs from
/// `current` in its 16 low bits alone is recovered.
pub proof fn sequence_near_by_is_recovered(sequence: int, current: int, max_queued: int)
    requires
        0 <= max_queued,
        sequence / 0x1_0000 == current / 0x1_0000,
        current - max_queued <= sequence <= current + max_queued,
    ensures
        true_sequence((sequence % 0x1_0000) as u16, current, max_queued) == sequence,
{
}

/// A packet holds the remainder of its sequence by 65536.
pub proof fn packet_holds_remainder(sequence: int)
    ensures
        packet_sequence_of(sequence) as int == sequence % 0x1_0000,
{
}

/// A counter goes up by what is counted, and starts again at zero past its end.
pub proof fn counting_adds(counter: u64, n: nat)
    ensures
        counter + n <= u64::MAX ==> counted(counter, n) == counter + n,
        counted(counter, n + 0x1_0000_0000_0000_0000) == counted(counter, n),
{
}

/// Whether `sequence` is the one that a packet with the number `number` stands for, of those
/// with these 16 low bits. Up to half of the span of a number, it is the one in the span that
/// starts `max_queued` before `current`. Beyond that it is the one with the same upper bits
/// as `current`, or the one within `max_queued` of it where that one is not.
pub open spec fn is_told_by(number: int, sequence: int, current: int, max_queued: int) -> bool {
    let near = current - current % 0x1_0000 + number;
    &&& sequence % 0x1_0000 == number
    &&& if max_queued <= 0x7FFF {
        current - max_queued <= sequence < current - max_queued + 0x1_0000
    } else if current - max_queued <= near <= current + max_queued {
        sequence == near
    } else {
        current - max_queued <= sequence <= current + max_queued
    }
}

/// Just one sequence is told by the number of a packet.
pub proof fn sequence_is_told_exactly(number: u16, sequence: int, current: int, max_queued: int)
    requires
        0 <= max_queued,
    ensures
        is_told_by(number as int, sequence, current, max_queued) <==> true_sequence(
            number,
            current,
            max_queued,
        ) == sequence,
{
}

} // verus!
