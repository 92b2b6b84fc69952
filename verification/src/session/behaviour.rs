//! What a session does with the time, with datagrams and with its channels, told by the
//! bytes of what it sends and by plain times.
use vstd::prelude::*;

use crate::channel::dispatch::{acknowledges, everything_up_to_is_taken_off};
use crate::channel::input::{
    accept_keeps, handle_keeps, ArrivalView, InputView, OutgoingContextual,
};
use crate::channel::output::{OutputView, QueuedView, ReliableView};
use crate::channel::receiving::{
    awaited_packet_is_processed, kept_packets_follow, kept_packets_have_their_turn,
    tick_acknowledges_when_due,
};
use crate::packet_utils::{
    frame, is_unverified_number, verdict, verification_is_exact, ValidationResult,
};
use crate::packets::{
    disconnect_body, disconnect_of, request_body, request_of, response_body, response_of,
    Disconnect, SessionRequestView, SessionResponse,
};
use crate::protocol::{op_code_of, op_codes_on_the_wire, DisconnectReason, OpCode};
use crate::rc4::KeyView;
use crate::session::laws::{acknowledgement_reaches_channel, framed_packet_is_handled};
use crate::session::model::{default_params, lcg_step, lcg_value, ParamsView, SessionView};
use crate::session::{SessionEvent, SessionMode, SessionState};
use crate::time::Instant;
use crate::varint::multi_packet;
use crate::wire::{be16, be16_digits, from_be16, from_be16_digits, number16, number32};
use crate::zlib::inflated;

verus! {

/// A contextual packet, by the CRC and the compression that the parameters give.
pub open spec fn on_the_wire(params: ParamsView, op: OpCode, payload: Seq<u8>) -> Seq<u8> {
    frame(op, payload, params.crc_seed, params.crc_length, params.is_compression_enabled)
}

/// Acknowledgements on the wire, each with its number.
pub open spec fn acks_on_the_wire(params: ParamsView, acks: Seq<OutgoingContextual>) -> Seq<
    Seq<u8>,
> {
    Seq::new(
        acks.len(),
        |k: int| on_the_wire(params, acks[k].op_code, be16(acks[k].sequence)),
    )
}

/// Reliable data packets on the wire.
pub open spec fn data_on_the_wire(params: ParamsView, packets: Seq<ReliableView>) -> Seq<Seq<u8>> {
    Seq::new(packets.len(), |k: int| on_the_wire(params, packets[k].op_code, packets[k].payload))
}

/// Whether more than `span` has passed at `now` since `then`, where `span` is not zero.
pub open spec fn has_passed(now: Instant, then: Instant, span: u128) -> bool {
    span != 0 && now.nanos > then.nanos + span
}

/// What a session sends for its remote to stay in touch at `now`: a client that runs sends
/// an empty heartbeat once the remote has been silent for longer than it waits with one.
pub open spec fn sign_of_life(v: SessionView, now: Instant) -> Seq<Seq<u8>> {
    if v.mode == SessionMode::Client && v.state == SessionState::Running && has_passed(
        now,
        v.last_received,
        v.params.heartbeat_after.nanos,
    ) {
        seq![on_the_wire(v.params, OpCode::Heartbeat, Seq::empty())]
    } else {
        Seq::empty()
    }
}

/// Collecting what the channels hold sends the acknowledgements first and then the data,
/// behind what was to be sent before, and hands over what came in where the session has
/// opened and runs.
pub proof fn flush_collects(v: SessionView)
    ensures
        ({
            let r = v.flushed();
            let opened = v.state == SessionState::Running && !v.open_on_next_packet;
            &&& r.outgoing == v.outgoing + acks_on_the_wire(v.params, v.input.outgoing)
                + data_on_the_wire(v.params, v.output.outgoing)
            &&& r.received == (if opened {
                v.received + v.input.app_data
            } else {
                v.received
            })
            &&& r.input == (InputView {
                outgoing: Seq::empty(),
                app_data: if opened {
                    Seq::empty()
                } else {
                    v.input.app_data
                },
                ..v.input
            })
            &&& r.output == (OutputView { outgoing: Seq::empty(), ..v.output })
            &&& r == (SessionView {
                outgoing: r.outgoing,
                received: r.received,
                input: r.input,
                output: r.output,
                ..v
            })
        }),
{
    reveal(SessionView::flushed);
    assert(v.framed_acks() =~= acks_on_the_wire(v.params, v.input.outgoing));
    assert(v.framed_packets() =~= data_on_the_wire(v.params, v.output.outgoing));
}

/// A tick of a session whose remote has not been silent for too long does the periodic work
/// of both channels, and sends a sign of life where one is due, then what each channel has
/// to send.
pub proof fn tick_works_both_channels(v: SessionView, now: Instant)
    requires
        v.state != SessionState::Terminated,
        !has_passed(now, v.last_received, v.params.inactivity_timeout.nanos),
    ensures
        ({
            let r = v.ticked(now);
            let input = v.input.ticked(now);
            let output = v.output.ticked(now);
            let opened = v.state == SessionState::Running && !v.open_on_next_packet;
            &&& r.outgoing == v.outgoing + sign_of_life(v, now) + acks_on_the_wire(
                v.params,
                input.outgoing,
            ) + data_on_the_wire(v.params, output.outgoing)
            &&& r.input.outgoing.len() == 0
            &&& r.output.outgoing.len() == 0
            &&& r.input == (InputView {
                outgoing: r.input.outgoing,
                app_data: r.input.app_data,
                ..input
            })
            &&& r.output == (OutputView { outgoing: r.output.outgoing, ..output })
            &&& opened ==> r.received == v.received + v.input.app_data
            &&& opened ==> r.input.app_data.len() == 0
            &&& !opened ==> r.received == v.received && r.input.app_data == v.input.app_data
            &&& r == (SessionView {
                outgoing: r.outgoing,
                received: r.received,
                input: r.input,
                output: r.output,
                ..v
            })
        }),
{
    let beaten = SessionView { outgoing: v.outgoing + sign_of_life(v, now), ..v };
    assert(v.outgoing.push(on_the_wire(v.params, OpCode::Heartbeat, Seq::empty()))
        =~= v.outgoing + seq![on_the_wire(v.params, OpCode::Heartbeat, Seq::empty())]);
    assert(v.outgoing + Seq::<Seq<u8>>::empty() =~= v.outgoing);
    let worked = SessionView {
        input: v.input.ticked(now),
        output: v.output.ticked(now),
        ..beaten
    };
    assert(v.ticked(now) == worked.flushed());
    flush_collects(worked);
}

/// What has come in order is acknowledged. Of a session that does not acknowledge each
/// packet on its own, where packets came in order since everything was acknowledged last,
/// and that is more than the delay ago or half the acknowledgement window came in, a tick
/// sends an acknowledgement of everything before the sequence that it waits for. `number`
/// are the two bytes of that acknowledgement.
pub proof fn tick_acknowledges_what_came_in_order(v: SessionView, number: Seq<u8>, now: Instant)
    requires
        v.state != SessionState::Terminated,
        !has_passed(now, v.last_received, v.params.inactivity_timeout.nanos),
        !v.input.config.acknowledge_all_data,
        v.input.window_start - 1 > v.input.last_ack_all,
        now.nanos > v.input.last_ack_all_time.nanos + v.input.config.max_ack_delay.nanos
            || v.input.window_start - 1 - v.input.last_ack_all >= v.input.config.data_ack_window
            / 2,
        number.len() == 2,
        number16(number, 0) == (v.input.window_start - 1) % 0x1_0000,
    ensures
        v.ticked(now).outgoing.contains(on_the_wire(v.params, OpCode::AcknowledgeAll, number)),
        v.ticked(now).input.last_ack_all == v.input.window_start - 1,
{
    tick_works_both_channels(v, now);
    tick_acknowledges_when_due(v.input, now);
    let input = v.input.ticked(now);
    let acks = acks_on_the_wire(v.params, input.outgoing);
    let data = data_on_the_wire(v.params, v.output.ticked(now).outgoing);
    let ack = on_the_wire(v.params, OpCode::AcknowledgeAll, number);
    let last = ((v.input.window_start - 1) % 0x1_0000) as u16;
    assert(be16(last) =~= number);
    assert(acks.last() == ack);
    let front = v.outgoing + sign_of_life(v, now);
    let place = front.len() + acks.len() - 1;
    assert((front + acks + data)[place] == ack);
}

/// Where all that one session has queued has come to the other in order, the acknowledgement
/// that a tick of the other sends empties the queue.
pub proof fn acknowledged_queue_is_empty(
    sender: SessionView,
    receiver: SessionView,
    number: Seq<u8>,
    now: Instant,
    later: Instant,
)
    requires
        sender.state != SessionState::Terminated,
        sender.output.wf(),
        sender.params.crc_seed == receiver.params.crc_seed,
        sender.params.crc_length == receiver.params.crc_length,
        sender.params.is_compression_enabled == receiver.params.is_compression_enabled,
        forall|k: int|
            0 <= k < sender.output.queue.len() ==> (#[trigger] sender.output.queue[k]).sequence
                < receiver.input.window_start,
        acknowledges(
            number16(number, 0) as u16,
            receiver.input.window_start - 1,
            sender.output,
        ),
        receiver.state != SessionState::Terminated,
        !has_passed(now, receiver.last_received, receiver.params.inactivity_timeout.nanos),
        !receiver.input.config.acknowledge_all_data,
        receiver.input.window_start - 1 > receiver.input.last_ack_all,
        now.nanos > receiver.input.last_ack_all_time.nanos
            + receiver.input.config.max_ack_delay.nanos,
        number.len() == 2,
        number16(number, 0) == (receiver.input.window_start - 1) % 0x1_0000,
    ensures
        ({
            let ack = on_the_wire(receiver.params, OpCode::AcknowledgeAll, number);
            let r = sender.processed(ack, later);
            &&& receiver.ticked(now).outgoing.contains(ack)
            &&& r.output.queue.len() == 0
            &&& r.state == sender.state
        }),
{
    tick_acknowledges_what_came_in_order(receiver, number, now);
    let sequence = receiver.input.window_start - 1;
    let last = (sequence % 0x1_0000) as u16;
    assert(be16(last) =~= number);
    acknowledgement_reaches_channel(sender, receiver.params, last, true, later);
    everything_up_to_is_taken_off(sender.output, last, sequence, later);
    let after = sender.output.acknowledged_all(last, later);
    if after.queue.len() > 0 {
        let n = sender.output.queue.len() - after.queue.len();
        assert(sender.output.queue[n].sequence > sequence);
    }
}

/// A session ends at a tick just where its remote has been silent for longer than the
/// timeout, where one is set: with a timeout as the reason, and without telling the remote.
/// Otherwise a tick leaves it where it is.
pub proof fn silence_ends_session(v: SessionView, now: Instant)
    requires
        v.state != SessionState::Terminated,
    ensures
        ({
            let r = v.ticked(now);
            let silent = v.params.inactivity_timeout.nanos != 0 && now.nanos
                - v.last_received.nanos > v.params.inactivity_timeout.nanos;
            &&& r.state == SessionState::Terminated <==> silent
            &&& r.last_received == v.last_received
            &&& r.params == v.params
            &&& if silent {
                &&& r.termination_reason == DisconnectReason::Timeout
                &&& !r.terminated_by_remote
                &&& r.events == v.events.push(SessionEvent::Closed(DisconnectReason::Timeout))
                &&& r.outgoing == v.outgoing + sign_of_life(v, now) + acks_on_the_wire(
                    v.params,
                    v.input.outgoing,
                ) + data_on_the_wire(v.params, v.output.ticked(now).outgoing)
            } else {
                &&& r.state == v.state
                &&& r.events == v.events
                &&& r.termination_reason == v.termination_reason
            }
        }),
{
    if has_passed(now, v.last_received, v.params.inactivity_timeout.nanos) {
        let beaten = SessionView { outgoing: v.outgoing + sign_of_life(v, now), ..v };
        assert(v.outgoing.push(on_the_wire(v.params, OpCode::Heartbeat, Seq::empty()))
            =~= v.outgoing + seq![on_the_wire(v.params, OpCode::Heartbeat, Seq::empty())]);
        assert(v.outgoing + Seq::<Seq<u8>>::empty() =~= v.outgoing);
        assert(v.ticked(now) == beaten.terminated(DisconnectReason::Timeout, false, false, now));
        termination_is_final(beaten, DisconnectReason::Timeout, false, false, now);
    } else {
        tick_works_both_channels(v, now);
    }
}

/// Once its remote has been silent for too long a session ends at the next tick, at
/// whatever time that is, however many ticks came before.
pub proof fn silence_ends_session_at_any_later_time(
    v: SessionView,
    tick: Instant,
    due: Instant,
    later: Instant,
)
    requires
        v.state != SessionState::Terminated,
        v.params.inactivity_timeout.nanos != 0,
        due.nanos > v.last_received.nanos + v.params.inactivity_timeout.nanos,
        later.nanos >= due.nanos,
    ensures
        v.ticked(later).state == SessionState::Terminated,
        v.ticked(later).termination_reason == DisconnectReason::Timeout,
        v.ticked(tick).ticked(later).state == SessionState::Terminated,
        v.ticked(tick).ticked(later).termination_reason == DisconnectReason::Timeout,
{
    silence_ends_session(v, later);
    silence_ends_session(v, tick);
    if v.ticked(tick).state != SessionState::Terminated {
        silence_ends_session(v.ticked(tick), later);
    }
}

/// A session that ends sends what its channels have due first, and then tells the remote,
/// where it is to be told and the session ran. It keeps the reason and who ended it, and
/// hands over what came in before, where it had opened.
pub proof fn termination_is_final(
    v: SessionView,
    reason: DisconnectReason,
    notify_remote: bool,
    by_remote: bool,
    now: Instant,
)
    requires
        v.state != SessionState::Terminated,
    ensures
        ({
            let r = v.terminated(reason, notify_remote, by_remote, now);
            let opened = v.state == SessionState::Running && !v.open_on_next_packet;
            let body = disconnect_body(Disconnect { session_id: v.session_id, reason });
            let output = v.output.ticked(now);
            let due = v.outgoing + acks_on_the_wire(v.params, v.input.outgoing) + data_on_the_wire(
                v.params,
                output.outgoing,
            );
            &&& r.state == SessionState::Terminated
            &&& r.termination_reason == reason
            &&& r.terminated_by_remote == by_remote
            &&& r.events == v.events.push(SessionEvent::Closed(reason))
            &&& if notify_remote && v.state == SessionState::Running {
                r.outgoing == due.push(on_the_wire(v.params, OpCode::Disconnect, body))
            } else {
                r.outgoing == due
            }
            &&& r == (SessionView {
                state: SessionState::Terminated,
                termination_reason: reason,
                terminated_by_remote: by_remote,
                events: r.events,
                outgoing: r.outgoing,
                received: if opened {
                    v.received + v.input.app_data
                } else {
                    v.received
                },
                input: InputView {
                    outgoing: Seq::empty(),
                    app_data: if opened {
                        Seq::empty()
                    } else {
                        v.input.app_data
                    },
                    ..v.input
                },
                output: OutputView { outgoing: Seq::empty(), ..output },
                ..v
            })
        }),
{
    reveal(SessionView::terminated);
    let worked = SessionView { output: v.output.ticked(now), ..v };
    flush_collects(worked);
}

/// The bytes that a contextual packet takes besides its payload: two for the OP code, one
/// where compression is enabled, and those of the CRC.
pub open spec fn bytes_around(params: ParamsView) -> int {
    2 + params.crc_length + (if params.is_compression_enabled {
        1int
    } else {
        0
    })
}

/// The payload of a packet and what stands around it make up the longest datagram that the
/// remote accepts, where that has room for it.
pub proof fn payload_fills_datagram(params: ParamsView)
    ensures
        params.remote_udp_length >= bytes_around(params) ==> params.max_data_length()
            + bytes_around(params) == params.remote_udp_length,
        params.remote_udp_length < bytes_around(params) ==> params.max_data_length() == 0,
{
}

/// The generator goes from one number to the next by a product and a sum, of which 64 bits
/// are kept, and gives the upper 32 of them.
pub proof fn generator_is_linear(state: u64)
    ensures
        lcg_step(state) as int == (state * 6_364_136_223_846_793_005
            + 1_442_695_040_888_963_407) % 0x1_0000_0000_0000_0000,
        lcg_value(state) as int == state as int / 0x1_0000_0000,
{
    let product = state * 6_364_136_223_846_793_005;
    vstd::arithmetic::div_mod::lemma_add_mod_noop(
        product,
        1_442_695_040_888_963_407,
        0x1_0000_0000_0000_0000,
    );
    assert(state >> 32 == state / 0x1_0000_0000 && (state >> 32) <= 0xFFFF_FFFF) by (bit_vector);
}

/// A session as it is once a valid datagram came in: it opens where that was waited for, and
/// notes the time.
pub open spec fn in_touch(v: SessionView, now: Instant) -> SessionView {
    SessionView {
        events: if v.open_on_next_packet {
            v.events.push(SessionEvent::Opened)
        } else {
            v.events
        },
        open_on_next_packet: false,
        last_received: now,
        ..v
    }
}

/// A datagram that is whole is handled by its OP code. One that is known by its number alone
/// is handled by what follows the number, and any other by what stands between the number
/// and the CRC. Then what the channels hold is collected.
pub proof fn whole_datagram_is_handled(v: SessionView, datagram: Seq<u8>, now: Instant)
    requires
        v.state != SessionState::Terminated,
        verdict(
            datagram,
            v.params.crc_seed,
            v.params.crc_length,
            v.params.is_compression_enabled,
        ) == ValidationResult::Valid,
    ensures
        ({
            let n = number16(datagram, 0);
            let op = op_code_of(n as u16)->0;
            let end = datagram.len() as int;
            let size = if v.params.crc_length > 4 {
                4
            } else {
                v.params.crc_length as int
            };
            let handled = if is_unverified_number(n) {
                in_touch(v, now).contextless_handled(op, datagram.subrange(2, end), now)
            } else {
                in_touch(v, now).payload_handled(
                    op,
                    datagram.subrange(2, end - size),
                    now,
                )
            };
            &&& op_code_of(n as u16) is Some
            &&& v.processed(datagram, now) == handled.flushed()
        }),
{
    verification_is_exact(
        datagram,
        v.params.crc_seed,
        v.params.crc_length,
        v.params.is_compression_enabled,
    );
    from_be16_digits(datagram);
    op_codes_on_the_wire(from_be16(datagram));
    assert(datagram.skip(2) =~= datagram.subrange(2, datagram.len() as int));
    assert(v.touched(now) == in_touch(v, now));
}

/// Any other datagram ends the session for a corrupt packet, of which the remote is told.
pub proof fn broken_datagram_ends_session(v: SessionView, datagram: Seq<u8>, now: Instant)
    requires
        v.state != SessionState::Terminated,
        verdict(
            datagram,
            v.params.crc_seed,
            v.params.crc_length,
            v.params.is_compression_enabled,
        ) != ValidationResult::Valid,
    ensures
        v.processed(datagram, now) == v.terminated(
            DisconnectReason::CorruptPacket,
            true,
            false,
            now,
        ),
{
}

/// What a contextual packet carries stands as it is where compression is disabled, and else
/// behind a flag: zero for what stands as it is, and any other for what is compressed. What
/// cannot be inflated ends the session for a corrupt packet, and nothing at all is passed
/// over.
pub proof fn payload_stands_behind_flag(v: SessionView, op: OpCode, body: Seq<u8>, now: Instant)
    ensures
        ({
            let r = v.payload_handled(op, body, now);
            let rest = body.subrange(1, body.len() as int);
            if !v.params.is_compression_enabled {
                r == v.contextual_handled(op, body, now)
            } else if body.len() == 0 {
                r == v
            } else if body[0] == 0 {
                r == v.contextual_handled(op, rest, now)
            } else {
                match inflated(rest, 0x0800_0000) {
                    Some(plain) => r == v.contextual_handled(op, plain, now),
                    None => r == v.terminated(DisconnectReason::CorruptPacket, true, false, now),
                }
            }
        }),
{
    reveal(SessionView::payload_handled);
    if body.len() > 0 {
        assert(body.skip(1) =~= body.subrange(1, body.len() as int));
    }
}

/// Reliable data goes to the input channel, as a fragment where it is one. Where it is
/// refused there the session ends for a corrupt packet.
pub proof fn reliable_data_is_handled(
    v: SessionView,
    body: Seq<u8>,
    is_fragment: bool,
    now: Instant,
)
    ensures
        ({
            let op = if is_fragment {
                OpCode::ReliableDataFragment
            } else {
                OpCode::ReliableData
            };
            let r = v.contextual_handled(op, body, now);
            let (input, result) = v.input.handle(body, is_fragment, now);
            if result is Ok {
                r == (SessionView { input, ..v })
            } else {
                r == (SessionView { input, ..v }).terminated(
                    DisconnectReason::CorruptPacket,
                    true,
                    false,
                    now,
                )
            }
        }),
{
    reveal(SessionView::single_handled);
}

/// An acknowledgement of two bytes or more goes to the output channel, of one packet or of
/// everything up to it, and a shorter one is passed over.
pub proof fn acknowledgement_is_handled(v: SessionView, body: Seq<u8>, now: Instant)
    ensures
        ({
            let one = v.contextual_handled(OpCode::Acknowledge, body, now);
            let all = v.contextual_handled(OpCode::AcknowledgeAll, body, now);
            let number = number16(body, 0) as u16;
            if body.len() < 2 {
                one == v && all == v
            } else {
                &&& one == (SessionView { output: v.output.acknowledged(number, now), ..v })
                &&& all == (SessionView { output: v.output.acknowledged_all(number, now), ..v })
            }
        }),
{
    reveal(SessionView::single_handled);
    from_be16_digits(body);
}

/// A disconnect that can be read ends the session for the reason in it, by the remote and
/// without an answer. Another one is passed over.
pub proof fn disconnect_is_handled(v: SessionView, body: Seq<u8>, now: Instant)
    ensures
        ({
            let r = v.contextual_handled(OpCode::Disconnect, body, now);
            match disconnect_of(body) {
                Ok(d) => r == v.terminated(d.reason, false, true, now),
                Err(_) => r == v,
            }
        }),
{
    reveal(SessionView::single_handled);
}

/// A heartbeat is answered with one by a server and passed over by a client. What has to do
/// with the state of the network is passed over, and so is what stands outside a session
/// where it comes as a contextual packet.
pub proof fn other_packets_are_handled(v: SessionView, op: OpCode, body: Seq<u8>, now: Instant)
    ensures
        ({
            let beaten = v.contextual_handled(OpCode::Heartbeat, body, now);
            let beat = on_the_wire(v.params, OpCode::Heartbeat, Seq::empty());
            if v.mode == SessionMode::Server {
                beaten == (SessionView { outgoing: v.outgoing.push(beat), ..v })
            } else {
                beaten == v
            }
        }),
        op == OpCode::NetStatusRequest || op == OpCode::NetStatusResponse || op
            == OpCode::SessionRequest || op == OpCode::SessionResponse || op
            == OpCode::UnknownSender || op == OpCode::RemapConnection ==> v.contextual_handled(
            op,
            body,
            now,
        ) == v,
{
    reveal(SessionView::single_handled);
}

/// Whether `prefix` is a length that may stand in front of a packet of `n` bytes in a
/// bundle: one byte, two behind a zero, or four behind three zeros.
pub open spec fn is_packet_length(prefix: Seq<u8>, n: int) -> bool {
    ||| prefix.len() == 1 && prefix[0] > 0 && n == prefix[0]
    ||| prefix.len() == 3 && prefix[0] == 0 && n == number16(prefix, 1) && n > 0
    ||| prefix.len() == 7 && prefix[0] == 0 && prefix[1] == 0 && prefix[2] == 0 && n == number32(
        prefix,
        3,
    )
}

proof fn packet_length_is_read(prefix: Seq<u8>, n: int, rest: Seq<u8>)
    requires
        is_packet_length(prefix, n),
    ensures
        multi_packet::length_at_start(prefix + rest) == Some((n as u32, prefix.len())),
        0 <= n <= u32::MAX,
{
    if prefix.len() == 1 {
        assert(prefix =~= seq![prefix[0]]);
        multi_packet::short_length_is_read(prefix[0], rest);
    } else if prefix.len() == 3 {
        assert(prefix =~= seq![0u8, prefix[1], prefix[2]]);
        multi_packet::middle_length_is_read(prefix[1], prefix[2], rest);
    } else {
        assert(prefix =~= seq![0u8, 0u8, 0u8, prefix[3], prefix[4], prefix[5], prefix[6]]);
        multi_packet::long_length_is_read(prefix[3], prefix[4], prefix[5], prefix[6], rest);
    }
}

/// The first packet of a bundle is handled by its OP code and what follows that, and then
/// the others, unless it ended the session. One whose number is not known ends the session
/// for a corrupt packet.
pub proof fn bundle_goes_on_behind_packet(
    v: SessionView,
    prefix: Seq<u8>,
    packet: Seq<u8>,
    others: Seq<u8>,
    now: Instant,
)
    requires
        is_packet_length(prefix, packet.len() as int),
        packet.len() >= 2,
    ensures
        ({
            let r = v.contextual_handled(OpCode::MultiPacket, prefix + packet + others, now);
            match op_code_of(number16(packet, 0) as u16) {
                Some(op) => {
                    let next = v.contextual_handled(
                        op,
                        packet.subrange(2, packet.len() as int),
                        now,
                    );
                    if next.state == SessionState::Terminated {
                        r == next
                    } else {
                        r == next.contextual_handled(OpCode::MultiPacket, others, now)
                    }
                },
                None => r == v.terminated(DisconnectReason::CorruptPacket, true, false, now),
            }
        }),
{
    let whole = prefix + packet + others;
    assert(whole =~= prefix + (packet + others));
    packet_length_is_read(prefix, packet.len() as int, packet + others);
    let used = prefix.len() as int;
    assert(whole.subrange(used, used + packet.len()) =~= packet);
    assert(whole.skip(used + packet.len()) =~= others);
    assert(packet.skip(2) =~= packet.subrange(2, packet.len() as int));
    from_be16_digits(packet);
}

/// A bundle that ends within a packet, or holds a packet too short for an OP code, ends the
/// session for a corrupt packet. An empty one is passed over.
pub proof fn broken_bundle_ends_session(
    v: SessionView,
    prefix: Seq<u8>,
    n: int,
    rest: Seq<u8>,
    now: Instant,
)
    requires
        is_packet_length(prefix, n),
        n < 2 || rest.len() < n,
    ensures
        v.contextual_handled(OpCode::MultiPacket, prefix + rest, now) == v.terminated(
            DisconnectReason::CorruptPacket,
            true,
            false,
            now,
        ),
        v.contextual_handled(OpCode::MultiPacket, Seq::empty(), now) == v,
{
    packet_length_is_read(prefix, n, rest);
}

/// A bundle that ends within a length ends the session for a corrupt packet.
pub proof fn bundle_cut_in_length_ends_session(v: SessionView, rest: Seq<u8>, now: Instant)
    requires
        rest.len() > 0,
        rest[0] == 0,
        rest.len() < 3 || (rest.len() < 7 && rest[1] == 0 && rest[2] == 0),
    ensures
        v.contextual_handled(OpCode::MultiPacket, rest, now) == v.terminated(
            DisconnectReason::CorruptPacket,
            true,
            false,
            now,
        ),
{
    multi_packet::cut_length_is_not_read(rest);
}

/// What comes of a session request: a client that gets one is connecting to itself, and one
/// that cannot be read is a corrupt packet.
pub proof fn unfit_request_ends_session(v: SessionView, body: Seq<u8>, now: Instant)
    ensures
        ({
            let r = v.contextless_handled(OpCode::SessionRequest, body, now);
            &&& v.mode == SessionMode::Client ==> r == v.terminated(
                DisconnectReason::ConnectingToSelf,
                false,
                false,
                now,
            )
            &&& v.mode == SessionMode::Server && request_of(body) is Err ==> r == v.terminated(
                DisconnectReason::CorruptPacket,
                true,
                false,
                now,
            )
        }),
{
    reveal(SessionView::contextless_handled);
}

/// A server takes the ID and the length of a datagram from any request. One that comes once
/// it was negotiated is an error, and one of another version or another application protocol
/// is refused.
pub proof fn request_is_refused(
    v: SessionView,
    body: Seq<u8>,
    request: SessionRequestView,
    now: Instant,
)
    requires
        v.mode == SessionMode::Server,
        request_of(body) == Ok::<SessionRequestView, crate::error::Error>(request),
    ensures
        ({
            let r = v.contextless_handled(OpCode::SessionRequest, body, now);
            let known = SessionView {
                params: ParamsView { remote_udp_length: request.udp_length, ..v.params },
                session_id: request.session_id,
                ..v
            };
            let reason = if v.state != SessionState::Negotiating {
                DisconnectReason::ConnectError
            } else {
                DisconnectReason::ProtocolMismatch
            };
            v.state != SessionState::Negotiating || request.soe_protocol_version != 3
                || request.application_protocol != v.params.application_protocol ==> r
                == known.terminated(reason, true, false, now)
        }),
{
    reveal(SessionView::contextless_handled);
}

/// A request of the right version and application protocol is granted by a server that is
/// yet to be negotiated. It runs then, opens with the next packet, and knows the ID and the
/// length of a datagram from the request. It picks a seed for the CRC, of which two bytes
/// are used, and answers with what it picked and its own length of a datagram.
pub proof fn request_is_granted_by_fields(
    v: SessionView,
    body: Seq<u8>,
    request: SessionRequestView,
    now: Instant,
)
    requires
        v.mode == SessionMode::Server,
        v.state == SessionState::Negotiating,
        request_of(body) == Ok::<SessionRequestView, crate::error::Error>(request),
        request.soe_protocol_version == 3,
        request.application_protocol == v.params.application_protocol,
    ensures
        ({
            let r = v.contextless_handled(OpCode::SessionRequest, body, now);
            let response = SessionResponse {
                session_id: request.session_id,
                crc_seed: r.params.crc_seed,
                crc_length: 2,
                is_compression_enabled: v.params.is_compression_enabled,
                unknown_value_1: 0,
                udp_length: v.params.udp_length,
                soe_protocol_version: 3,
            };
            &&& r.rng as int == (v.rng * 6_364_136_223_846_793_005 + 1_442_695_040_888_963_407)
                % 0x1_0000_0000_0000_0000
            &&& r.params == (ParamsView {
                remote_udp_length: request.udp_length,
                crc_length: 2,
                crc_seed: (r.rng / 0x1_0000_0000) as u32,
                ..v.params
            })
            &&& r.output.config.max_data_length == r.params.max_data_length()
            &&& r.output.config.max_queued_outgoing == v.output.config.max_queued_outgoing
            &&& r.output.config.ack_wait == v.output.config.ack_wait
            &&& r.output == (OutputView { config: r.output.config, ..v.output })
            &&& r.outgoing == v.outgoing.push(seq![0x00u8, 0x02u8] + response_body(response))
            &&& r == (SessionView {
                state: SessionState::Running,
                open_on_next_packet: true,
                session_id: request.session_id,
                rng: r.rng,
                params: r.params,
                output: r.output,
                outgoing: r.outgoing,
                ..v
            })
        }),
{
    reveal(SessionView::contextless_handled);
    generator_is_linear(v.rng);
    generator_is_linear(lcg_step(v.rng));
    be16_digits(2);
    assert(be16(2) =~= seq![0x00u8, 0x02u8]);
}

/// What comes of a session response that is not the one that was waited for: a server that
/// gets one is connecting to itself, one that cannot be read is a corrupt packet, one that
/// comes once the session was negotiated is an error, and one of another version is refused.
pub proof fn unfit_response_ends_session(v: SessionView, body: Seq<u8>, now: Instant)
    ensures
        ({
            let r = v.contextless_handled(OpCode::SessionResponse, body, now);
            if v.mode == SessionMode::Server {
                r == v.terminated(DisconnectReason::ConnectingToSelf, false, false, now)
            } else {
                match response_of(body) {
                    Err(_) => r == v.terminated(DisconnectReason::CorruptPacket, true, false, now),
                    Ok(response) => {
                        &&& v.state != SessionState::Negotiating ==> r == v.terminated(
                            DisconnectReason::ConnectError,
                            true,
                            false,
                            now,
                        )
                        &&& v.state == SessionState::Negotiating && response.soe_protocol_version
                            != 3 ==> r == v.terminated(
                            DisconnectReason::ProtocolMismatch,
                            true,
                            false,
                            now,
                        )
                    },
                }
            }
        }),
{
    reveal(SessionView::contextless_handled);
}

/// A response of the right version has a client run that waited for it. It takes over what
/// the response says, and has opened.
pub proof fn response_is_taken_over(
    v: SessionView,
    body: Seq<u8>,
    response: SessionResponse,
    now: Instant,
)
    requires
        v.mode == SessionMode::Client,
        v.state == SessionState::Negotiating,
        response_of(body) == Ok::<SessionResponse, crate::error::Error>(response),
        response.soe_protocol_version == 3,
    ensures
        ({
            let r = v.contextless_handled(OpCode::SessionResponse, body, now);
            &&& r.params == (ParamsView {
                remote_udp_length: response.udp_length,
                crc_length: response.crc_length,
                crc_seed: response.crc_seed,
                is_compression_enabled: response.is_compression_enabled,
                ..v.params
            })
            &&& r.output.config.max_data_length == r.params.max_data_length()
            &&& r.output.config.max_queued_outgoing == v.output.config.max_queued_outgoing
            &&& r.output.config.ack_wait == v.output.config.ack_wait
            &&& r.output == (OutputView { config: r.output.config, ..v.output })
            &&& r == (SessionView {
                state: SessionState::Running,
                session_id: response.session_id,
                params: r.params,
                output: r.output,
                events: v.events.push(SessionEvent::Opened),
                ..v
            })
        }),
{
    reveal(SessionView::contextless_handled);
}

/// A remote that does not know the session ends it as unreachable, without being told. A
/// remap changes nothing here.
pub proof fn unknown_sender_ends_session(v: SessionView, body: Seq<u8>, now: Instant)
    ensures
        v.contextless_handled(OpCode::UnknownSender, body, now) == v.terminated(
            DisconnectReason::UnreachableConnection,
            false,
            false,
            now,
        ),
        v.contextless_handled(OpCode::RemapConnection, body, now) == v,
{
    reveal(SessionView::contextless_handled);
}

/// A client that is yet to be negotiated asks for the session with the next number of its
/// generator as the ID. No other session asks.
pub proof fn request_is_sent(v: SessionView)
    ensures
        ({
            let r = v.requested();
            let request = SessionRequestView {
                soe_protocol_version: 3,
                session_id: r.session_id,
                udp_length: v.params.udp_length,
                application_protocol: v.params.application_protocol,
            };
            if v.state == SessionState::Negotiating && v.mode == SessionMode::Client {
                &&& r.rng as int == (v.rng * 6_364_136_223_846_793_005
                    + 1_442_695_040_888_963_407) % 0x1_0000_0000_0000_0000
                &&& r.session_id == r.rng / 0x1_0000_0000
                &&& r.outgoing == v.outgoing.push(seq![0x00u8, 0x01u8] + request_body(request))
                &&& r == (SessionView {
                    rng: r.rng,
                    session_id: r.session_id,
                    outgoing: r.outgoing,
                    ..v
                })
            } else {
                r == v
            }
        }),
{
    generator_is_linear(v.rng);
    generator_is_linear(lcg_step(v.rng));
    be16_digits(1);
    assert(be16(1) =~= seq![0x00u8, 0x01u8]);
}

/// Data goes to the output channel of a session that runs, and is dropped by any other.
pub proof fn data_goes_to_channel(v: SessionView, data: Seq<u8>)
    ensures
        v.state == SessionState::Running ==> v.enqueued(data) == (SessionView {
            output: v.output.enqueued(data),
            ..v
        }),
        v.state != SessionState::Running ==> v.enqueued(data) == v,
{
}

/// How a new session is set up by its parameters.
pub proof fn new_session_is_set_up(
    mode: SessionMode,
    params: ParamsView,
    cipher: Option<KeyView>,
    rng_seed: u64,
    now: Instant,
)
    ensures
        ({
            let v = SessionView::initial(mode, params, cipher, rng_seed, now);
            &&& v.mode == mode
            &&& v.state == SessionState::Negotiating
            &&& v.params == params
            &&& v.session_id == 0
            &&& v.termination_reason == DisconnectReason::Unspecified
            &&& !v.terminated_by_remote
            &&& !v.open_on_next_packet
            &&& v.last_received == now
            &&& v.outgoing.len() == 0
            &&& v.received.len() == 0
            &&& v.events.len() == 0
            &&& v.input.config.max_queued_incoming == params.max_queued_incoming_reliable
            &&& v.input.config.acknowledge_all_data == params.acknowledge_all_data
            &&& v.input.config.data_ack_window == params.data_ack_window
            &&& v.input.config.max_ack_delay == params.max_ack_delay
            &&& v.input == InputView::initial(v.input.config, cipher, now)
            &&& v.output.config.max_data_length == params.max_data_length()
            &&& v.output.config.max_queued_outgoing == params.max_queued_outgoing_reliable
            &&& v.output.config.ack_wait.nanos == 500_000_000
            &&& v.output == OutputView::initial(v.output.config, cipher, now)
            &&& v.rng ^ rng_seed == 0x9E37_79B9_7F4A_7C15
        }),
{
    assert((rng_seed ^ 0x9E37_79B9_7F4A_7C15u64) ^ rng_seed == 0x9E37_79B9_7F4A_7C15u64)
        by (bit_vector);
}

/// What the parameters of a session are unless they are set.
pub proof fn defaults_of_parameters()
    ensures
        ({
            let p = default_params();
            &&& p.application_protocol.len() == 0
            &&& p.udp_length == 512
            &&& p.remote_udp_length == 512
            &&& p.crc_seed == 0
            &&& p.crc_length == 2
            &&& !p.is_compression_enabled
            &&& p.max_queued_incoming_reliable == 256
            &&& p.max_queued_outgoing_reliable == 196
            &&& p.data_ack_window == 32
            &&& p.heartbeat_after.nanos == 25_000_000_000
            &&& p.inactivity_timeout.nanos == 30_000_000_000
            &&& !p.acknowledge_all_data
            &&& p.max_ack_delay.nanos == 2_000_000
        }),
{
}

/// A session can take in any datagram of less than four gibibytes as long as its sequences
/// are below their limit. It can be given any data while it does not run, which it drops, and
/// any that a buffer can hold while it runs, as long as packets have room for a number and a
/// length, or for the data, and its sequences are below their limit.
pub proof fn what_a_session_takes(v: SessionView, datagram: Seq<u8>, n: int)
    ensures
        v.ready(datagram) <==> datagram.len() < 0x1_0000_0000 && v.input.window_start
            <= 0x2000_0000_0000_0000 && v.output.max_client <= 0x2000_0000_0000_0000,
        v.state != SessionState::Running ==> v.accepts(n),
        v.state == SessionState::Running ==> (v.accepts(n) <==> {
            &&& v.output.config.max_data_length >= 6 || n + 3 <= v.output.config.max_data_length
            &&& v.output.total <= 0x2000_0000_0000_0000
            &&& 4 * (n + 7) <= isize::MAX
        }),
{
}

/// A session once some packets of a queue were handed to it, in order.
pub open spec fn handed_over(
    v: SessionView,
    params: ParamsView,
    packets: Seq<QueuedView>,
    now: Instant,
) -> SessionView
    decreases packets.len(),
{
    if packets.len() == 0 {
        v
    } else {
        let last = packets.last();
        let op = if last.is_fragment {
            OpCode::ReliableDataFragment
        } else {
            OpCode::ReliableData
        };
        handed_over(v, params, packets.drop_last(), now).processed(
            on_the_wire(params, op, last.payload),
            now,
        )
    }
}

/// Whether packets are numbered one after the other from `first` on, each with its number in
/// front.
pub open spec fn numbered_from(packets: Seq<QueuedView>, first: int) -> bool {
    forall|k: int| 0 <= k < packets.len() ==> is_numbered(#[trigger] packets[k], first + k)
}

/// Whether a packet has this sequence, and its number in front.
pub open spec fn is_numbered(packet: QueuedView, sequence: int) -> bool {
    &&& packet.sequence == sequence
    &&& packet.payload.len() >= 2
    &&& number16(packet.payload, 0) == sequence % 0x1_0000
}

/// Whether an input channel keeps no packet that came early.
pub open spec fn keeps_none(v: InputView) -> bool {
    forall|k: int| 0 <= k < v.stash.len() ==> (#[trigger] v.stash[k]) is None
}

proof fn awaited_packet_moves_window(v: InputView, data: Seq<u8>, is_fragment: bool, now: Instant)
    requires
        v.wf(),
        keeps_none(v),
        data.len() >= 2,
        number16(data, 0) == v.window_start % 0x1_0000,
        v.handle(data, is_fragment, now).1 is Ok,
    ensures
        ({
            let r = v.handle(data, is_fragment, now).0;
            &&& r.wf()
            &&& r.config == v.config
            &&& r.window_start == v.window_start + 1
            &&& r.last_ack_all == v.last_ack_all
            &&& r.last_ack_all_time == v.last_ack_all_time
            &&& keeps_none(r)
        }),
{
    let item = ArrivalView { data: data.subrange(2, data.len() as int), is_fragment };
    kept_packets_follow(v, data, is_fragment, now);
    awaited_packet_is_processed(v, data, is_fragment, now);
    handle_keeps(v, data, is_fragment, now);
    reveal(InputView::handle);
    let noted = v.noted(from_be16(data), false);
    accept_keeps(noted, item);
    from_be16_digits(data);
    assert(data.skip(2) =~= data.subrange(2, data.len() as int));
    let next = noted.accept(item).0;
    if v.config.max_queued_incoming > 0 {
        vstd::arithmetic::div_mod::lemma_mod_bound(
            next.window_start,
            v.config.max_queued_incoming as int,
        );
        assert(v.stash[next.slot(next.window_start)] is None);
        kept_packets_have_their_turn(next);
    }
}

proof fn packets_in_order_move_window(
    v: SessionView,
    params: ParamsView,
    packets: Seq<QueuedView>,
    now: Instant,
)
    requires
        v.wf(),
        keeps_none(v.input),
        params.crc_seed == v.params.crc_seed,
        params.crc_length == v.params.crc_length,
        params.is_compression_enabled == v.params.is_compression_enabled,
        numbered_from(packets, v.input.window_start),
        handed_over(v, params, packets, now).state != SessionState::Terminated,
    ensures
        ({
            let r = handed_over(v, params, packets, now);
            &&& r.wf()
            &&& r.params == v.params
            &&& r.input.config == v.input.config
            &&& r.input.window_start == v.input.window_start + packets.len()
            &&& r.input.last_ack_all == v.input.last_ack_all
            &&& r.input.last_ack_all_time == v.input.last_ack_all_time
            &&& keeps_none(r.input)
            &&& packets.len() > 0 ==> r.last_received == now
        }),
    decreases packets.len(),
{
    if packets.len() > 0 {
        let earlier = packets.drop_last();
        let last = packets.last();
        let op = if last.is_fragment {
            OpCode::ReliableDataFragment
        } else {
            OpCode::ReliableData
        };
        let before = handed_over(v, params, earlier, now);
        let r = handed_over(v, params, packets, now);
        assert(before.state != SessionState::Terminated);
        assert forall|k: int| 0 <= k < earlier.len() implies is_numbered(
            #[trigger] earlier[k],
            v.input.window_start + k,
        ) by {
            assert(earlier[k] == packets[k]);
        }
        packets_in_order_move_window(v, params, earlier, now);
        assert(is_numbered(packets[packets.len() - 1], v.input.window_start + earlier.len()));
        framed_packet_is_handled(before, params, op, last.payload, now);
        let touched = in_touch(before, now);
        assert(before.touched(now) == touched);
        let handled = touched.contextual_handled(op, last.payload, now);
        assert(r == handled.flushed());
        reliable_data_is_handled(touched, last.payload, last.is_fragment, now);
        flush_collects(handled);
        let (input, result) = before.input.handle(last.payload, last.is_fragment, now);
        if result is Ok {
            awaited_packet_moves_window(before.input, last.payload, last.is_fragment, now);
        } else {
            let broken = SessionView { input, ..touched };
            termination_is_final(broken, DisconnectReason::CorruptPacket, true, false, now);
            assert(false);
        }
    }
}

/// After all that a sender has queued was handed to a receiver in order, the next tick of the
/// receiver past the acknowledgement delay sends what empties the queue of the sender once it
/// is handed over. `number` are the two bytes of the last sequence that was handed over.
pub proof fn delivered_queue_is_acknowledged(
    sender: SessionView,
    receiver: SessionView,
    number: Seq<u8>,
    now: Instant,
    tick: Instant,
    later: Instant,
)
    requires
        sender.state != SessionState::Terminated,
        sender.output.wf(),
        receiver.wf(),
        sender.params.crc_seed == receiver.params.crc_seed,
        sender.params.crc_length == receiver.params.crc_length,
        sender.params.is_compression_enabled == receiver.params.is_compression_enabled,
        sender.output.queue.len() > 0,
        numbered_from(sender.output.queue, receiver.input.window_start),
        keeps_none(receiver.input),
        !receiver.input.config.acknowledge_all_data,
        handed_over(receiver, sender.params, sender.output.queue, now).state
            != SessionState::Terminated,
        tick.nanos > receiver.input.last_ack_all_time.nanos
            + receiver.input.config.max_ack_delay.nanos,
        !has_passed(tick, now, receiver.params.inactivity_timeout.nanos),
        number.len() == 2,
        number16(number, 0) == sender.output.queue.last().sequence % 0x1_0000,
        acknowledges(
            number16(number, 0) as u16,
            sender.output.queue.last().sequence,
            sender.output,
        ),
    ensures
        ({
            let delivered = handed_over(receiver, sender.params, sender.output.queue, now);
            let ack = on_the_wire(receiver.params, OpCode::AcknowledgeAll, number);
            &&& delivered.ticked(tick).outgoing.contains(ack)
            &&& sender.processed(ack, later).output.queue.len() == 0
        }),
{
    let queue = sender.output.queue;
    let delivered = handed_over(receiver, sender.params, queue, now);
    packets_in_order_move_window(receiver, sender.params, queue, now);
    assert forall|k: int| 0 <= k < queue.len() implies (#[trigger] queue[k]).sequence
        < delivered.input.window_start by {
        assert(is_numbered(queue[k], receiver.input.window_start + k));
    }
    assert(is_numbered(
        queue[queue.len() - 1],
        receiver.input.window_start + queue.len() - 1,
    ));
    acknowledged_queue_is_empty(sender, delivered, number, tick, later);
}

} // verus!
