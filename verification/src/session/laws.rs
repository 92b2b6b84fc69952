//! What holds of sessions over several calls, and of the two sessions at the two ends.
use vstd::prelude::*;
use vstd::utf8::encode_utf8;

use crate::channel::delivery::{
    accept_all, arrival, arrivals, delivery_in_order, follows, tellable, ticks_and_takes_follow,
};
use crate::channel::input::InputView;
use crate::channel::output::{OutputView, QueuedView};
use crate::channel::packet_sequence_of;
use crate::constants::{CRC_LENGTH, OP_CODE_SIZE, SOE_PROTOCOL_VERSION};
use crate::packet_utils::{framed_payload, framing_round_trip, leading_op_code, ValidationResult};
use crate::packets::{
    disconnect_body, disconnect_of, disconnect_round_trip, request_body, request_of,
    request_round_trip, response_body, response_round_trip, Disconnect, SessionRequestView,
};
use crate::protocol::{
    contextless, op_code_number, op_code_round_trip, DisconnectReason, OpCode,
};
use crate::rc4::KeyView;
use crate::session::model::{lcg_step, lcg_value, ParamsView, SessionView};
use crate::session::{SessionEvent, SessionMode, SessionState};
use crate::time::Instant;
use crate::varint::multi_packet;
use crate::wire::{be16, be16_round_trip};
use crate::zlib::{inflated, MAX_INFLATED_LENGTH};

verus! {

/// A terminated session stays as it is, whatever happens.
pub proof fn terminated_for_good(
    v: SessionView,
    datagram: Seq<u8>,
    data: Seq<u8>,
    reason: DisconnectReason,
    notify_remote: bool,
    by_remote: bool,
    now: Instant,
)
    requires
        v.state == SessionState::Terminated,
    ensures
        v.processed(datagram, now) == v,
        v.ticked(now) == v,
        v.terminated(reason, notify_remote, by_remote, now) == v,
        v.requested() == v,
        v.enqueued(data) == v,
{
    reveal(SessionView::terminated);
}

/// A datagram that is not valid ends the session, and does not count as a sign of life.
pub proof fn corrupt_datagram_ends_session(v: SessionView, datagram: Seq<u8>, now: Instant)
    requires
        v.state != SessionState::Terminated,
        v.datagram_verdict(datagram) != ValidationResult::Valid,
    ensures
        v.processed(datagram, now).state == SessionState::Terminated,
        v.processed(datagram, now).termination_reason == DisconnectReason::CorruptPacket,
        !v.processed(datagram, now).terminated_by_remote,
        v.processed(datagram, now).last_received == v.last_received,
{
    reveal(SessionView::terminated);
    reveal(SessionView::flushed);
}

/// A session whose remote has been silent for too long ends with the next tick, without
/// a word; where no timeout is set a tick ends no session.
pub proof fn inactivity_ends_session(v: SessionView, now: Instant)
    requires
        v.state != SessionState::Terminated,
    ensures
        v.inactive(now) ==> v.ticked(now).state == SessionState::Terminated && v.ticked(
            now,
        ).termination_reason == DisconnectReason::Timeout,
        !v.inactive(now) ==> v.ticked(now).state == v.state,
        v.params.inactivity_timeout.nanos == 0 ==> v.ticked(now).state == v.state,
{
    reveal(SessionView::terminated);
    reveal(SessionView::flushed);
}

/// A server answers a heartbeat with a heartbeat, and takes it as a sign of life.
pub proof fn heartbeat_is_answered(v: SessionView, params: ParamsView, now: Instant)
    requires
        v.state != SessionState::Terminated,
        v.mode == SessionMode::Server,
        params.crc_seed == v.params.crc_seed,
        params.crc_length == v.params.crc_length,
        params.is_compression_enabled == v.params.is_compression_enabled,
    ensures
        ({
            let beat = params.frame(OpCode::Heartbeat, Seq::empty());
            let r = v.processed(beat, now);
            &&& v.outgoing.push(beat).is_prefix_of(r.outgoing)
            &&& r.last_received == now
            &&& r.state == v.state
        }),
{
    framed_packet_is_handled(v, params, OpCode::Heartbeat, Seq::empty(), now);
    reveal(SessionView::single_handled);
    reveal(SessionView::flushed);
}

/// A contextual packet that one party has framed is handled by the other as what it
/// was, where they agree on the CRC and on compression.
pub proof fn framed_packet_is_handled(
    v: SessionView,
    params: ParamsView,
    op: OpCode,
    payload: Seq<u8>,
    now: Instant,
)
    requires
        v.state != SessionState::Terminated,
        params.crc_seed == v.params.crc_seed,
        params.crc_length == v.params.crc_length,
        params.is_compression_enabled == v.params.is_compression_enabled,
        !contextless(op),
    ensures
        v.processed(params.frame(op, payload), now) == v.touched(now).contextual_handled(
            op,
            payload,
            now,
        ).flushed(),
{
    reveal(SessionView::payload_handled);
    framing_round_trip(
        op,
        payload,
        params.crc_seed,
        params.crc_length,
        params.is_compression_enabled,
    );
    let body = framed_payload(params.frame(op, payload), params.crc_length);
    if params.is_compression_enabled {
        assert(body.skip(1) =~= payload);
    } else {
        assert(body =~= payload);
    }
}

/// A packet whose payload is no longer than the remote accepts fits the datagrams that
/// the remote accepts.
pub proof fn framed_packet_fits(params: ParamsView, op: OpCode, payload: Seq<u8>)
    requires
        params.overhead() <= params.remote_udp_length,
        payload.len() <= params.max_data_length(),
    ensures
        params.frame(op, payload).len() <= params.remote_udp_length,
{
}

/// Reliable data that one party has framed gets to the input channel of the other, and
/// what comes out of that channel is handed to the application.
pub proof fn reliable_data_reaches_channel(
    v: SessionView,
    params: ParamsView,
    payload: Seq<u8>,
    is_fragment: bool,
    now: Instant,
)
    requires
        v.state == SessionState::Running,
        params.crc_seed == v.params.crc_seed,
        params.crc_length == v.params.crc_length,
        params.is_compression_enabled == v.params.is_compression_enabled,
        v.input.handle(payload, is_fragment, now).1 is Ok,
    ensures
        ({
            let op = if is_fragment {
                OpCode::ReliableDataFragment
            } else {
                OpCode::ReliableData
            };
            let r = v.processed(params.frame(op, payload), now);
            let input = v.input.handle(payload, is_fragment, now).0;
            &&& r.input == (InputView {
                outgoing: Seq::empty(),
                app_data: Seq::empty(),
                ..input
            })
            &&& r.received == v.received + input.app_data
            &&& r.state == v.state
            &&& r.params == v.params
        }),
{
    let op = if is_fragment {
        OpCode::ReliableDataFragment
    } else {
        OpCode::ReliableData
    };
    framed_packet_is_handled(v, params, op, payload, now);
    reveal(SessionView::single_handled);
    reveal(SessionView::flushed);
}

/// A session delivers reliable data in order: a packet of the stream that the other
/// party sends, arriving at any time, leaves the session on that stream, and what the
/// session hands to the application is what the input channel hands out. `done` is what
/// was handed out before.
pub proof fn session_delivers_in_order(
    v: SessionView,
    params: ParamsView,
    done: Seq<Seq<u8>>,
    start: InputView,
    stream: Seq<QueuedView>,
    k: int,
    now: Instant,
)
    requires
        v.state == SessionState::Running,
        params.crc_seed == v.params.crc_seed,
        params.crc_length == v.params.crc_length,
        params.is_compression_enabled == v.params.is_compression_enabled,
        follows(v.input, done, start, arrivals(stream)),
        accept_all(start, arrivals(stream)).1 is Ok,
        0 <= k < stream.len(),
        stream[k].payload == be16(packet_sequence_of(k)) + arrival(stream[k]).data,
        tellable(v.input, k),
    ensures
        ({
            let packet = stream[k].packet();
            let r = v.processed(params.frame(packet.op_code, packet.payload), now);
            &&& r.state == v.state
            &&& v.received.is_prefix_of(r.received)
            &&& follows(
                r.input,
                done + r.received.skip(v.received.len() as int),
                start,
                arrivals(stream),
            )
            &&& k == v.input.window_start ==> r.input.window_start > v.input.window_start
        }),
{
    let items = arrivals(stream);
    let packet = stream[k].packet();
    delivery_in_order(v.input, done, start, items, k, now);
    reliable_data_reaches_channel(v, params, packet.payload, stream[k].is_fragment, now);
    let r = v.processed(params.frame(packet.op_code, packet.payload), now);
    let input = v.input.handle(packet.payload, stream[k].is_fragment, now).0;
    ticks_and_takes_follow(input, done, start, items, now);
    let taken = InputView { app_data: Seq::empty(), ..input };
    ticks_and_takes_follow(taken, done + input.app_data, start, items, now);
    assert(r.received.skip(v.received.len() as int) =~= input.app_data);
    assert(r.input == InputView { outgoing: Seq::empty(), ..taken });
}

/// An acknowledgement that one party has framed gets to the output channel of the other.
pub proof fn acknowledgement_reaches_channel(
    v: SessionView,
    params: ParamsView,
    sequence: u16,
    all: bool,
    now: Instant,
)
    requires
        v.state != SessionState::Terminated,
        params.crc_seed == v.params.crc_seed,
        params.crc_length == v.params.crc_length,
        params.is_compression_enabled == v.params.is_compression_enabled,
    ensures
        ({
            let op = if all {
                OpCode::AcknowledgeAll
            } else {
                OpCode::Acknowledge
            };
            let r = v.processed(params.frame(op, be16(sequence)), now);
            let output = if all {
                v.output.acknowledged_all(sequence, now)
            } else {
                v.output.acknowledged(sequence, now)
            };
            &&& r.output == (OutputView { outgoing: Seq::empty(), ..output })
            &&& r.state == v.state
        }),
{
    let op = if all {
        OpCode::AcknowledgeAll
    } else {
        OpCode::Acknowledge
    };
    framed_packet_is_handled(v, params, op, be16(sequence), now);
    be16_round_trip(sequence, Seq::empty());
    assert(be16(sequence) + Seq::<u8>::empty() =~= be16(sequence));
    reveal(SessionView::single_handled);
    reveal(SessionView::flushed);
}

/// A running session that is terminated with notice ends the session at the other end,
/// for the same reason.
pub proof fn disconnect_reaches_remote(
    v: SessionView,
    w: SessionView,
    reason: DisconnectReason,
    now: Instant,
    later: Instant,
)
    requires
        v.state == SessionState::Running,
        w.state != SessionState::Terminated,
        v.params.crc_seed == w.params.crc_seed,
        v.params.crc_length == w.params.crc_length,
        v.params.is_compression_enabled == w.params.is_compression_enabled,
    ensures
        ({
            let r = w.processed(
                v.terminated(reason, true, false, now).outgoing.last(),
                later,
            );
            &&& r.state == SessionState::Terminated
            &&& r.termination_reason == reason
            &&& r.terminated_by_remote
        }),
{
    let disconnect = Disconnect { session_id: v.session_id, reason };
    let d = v.params.frame(OpCode::Disconnect, disconnect_body(disconnect));
    assert(v.terminated(reason, true, false, now).outgoing.last() == d) by {
        reveal(SessionView::terminated);
        reveal(SessionView::flushed);
    }
    framed_packet_is_handled(w, v.params, OpCode::Disconnect, disconnect_body(disconnect), later);
    disconnect_round_trip(disconnect);
    reveal(SessionView::single_handled);
    reveal(SessionView::terminated);
    reveal(SessionView::flushed);
}

/// A packet in a bundle: its OP code and what follows that.
pub struct Part {
    /// The OP code.
    pub op: OpCode,
    /// What follows it.
    pub payload: Seq<u8>,
}

/// The packets of a bundle as they stand in it, each behind its length.
pub open spec fn bundle_of(parts: Seq<Part>) -> Seq<u8>
    decreases parts.len(),
{
    if parts.len() == 0 {
        Seq::empty()
    } else {
        let sub = be16(op_code_number(parts[0].op)) + parts[0].payload;
        multi_packet::length_bytes(sub.len() as u32) + sub + bundle_of(parts.skip(1))
    }
}

/// A session once it has handled some packets, one after the other.
pub open spec fn handled_in_turn(v: SessionView, parts: Seq<Part>, now: Instant) -> SessionView
    decreases parts.len(),
{
    if parts.len() == 0 {
        v
    } else {
        handled_in_turn(
            v.contextual_handled(parts[0].op, parts[0].payload, now),
            parts.skip(1),
            now,
        )
    }
}

/// Whether the length of each packet can be written, and none of them ends the session
/// when they are handled one after the other.
pub open spec fn none_ends(v: SessionView, parts: Seq<Part>, now: Instant) -> bool
    decreases parts.len(),
{
    if parts.len() == 0 {
        true
    } else {
        let next = v.contextual_handled(parts[0].op, parts[0].payload, now);
        &&& parts[0].payload.len() + 2 <= u32::MAX
        &&& next.state != SessionState::Terminated
        &&& none_ends(next, parts.skip(1), now)
    }
}

/// A bundle has the effect of its packets, handled one after the other, where none of
/// them ends the session.
pub proof fn bundle_is_its_packets(v: SessionView, parts: Seq<Part>, now: Instant)
    requires
        none_ends(v, parts, now),
    ensures
        v.contextual_handled(OpCode::MultiPacket, bundle_of(parts), now) == handled_in_turn(
            v,
            parts,
            now,
        ),
        v.bundle_handled(bundle_of(parts), now) == handled_in_turn(v, parts, now),
    decreases parts.len(),
{
    if parts.len() > 0 {
        let op = parts[0].op;
        let payload = parts[0].payload;
        let sub = be16(op_code_number(op)) + payload;
        let length = multi_packet::length_bytes(sub.len() as u32);
        let others = bundle_of(parts.skip(1));
        let whole = bundle_of(parts);
        assert(whole =~= length + (sub + others));
        multi_packet::length_round_trip(sub.len() as u32, sub + others);
        let used = length.len() as int;
        assert(whole.subrange(used, used + sub.len()) =~= sub);
        assert(whole.skip(used + sub.len()) =~= others);
        be16_round_trip(op_code_number(op), payload);
        op_code_round_trip(op);
        assert(sub.skip(2) =~= payload);
        let next = v.contextual_handled(op, payload, now);
        bundle_is_its_packets(next, parts.skip(1), now);
        assert(v.bundle_handled(whole, now) == next.bundle_handled(others, now));
    }
}

/// A packet that stands outside any session is valid, and is known by its OP code.
proof fn contextless_packet(v: SessionView, op: OpCode, body: Seq<u8>)
    requires
        contextless(op),
    ensures
        ({
            let d = be16(op_code_number(op)) + body;
            &&& v.datagram_verdict(d) == ValidationResult::Valid
            &&& leading_op_code(d) == Some(op)
            &&& d.skip(2) == body
        }),
{
    be16_round_trip(op_code_number(op), body);
    op_code_round_trip(op);
    assert((be16(op_code_number(op)) + body).skip(2) =~= body);
}

/// The request that a new client session sends.
pub open spec fn first_request(v: SessionView) -> SessionRequestView {
    SessionRequestView {
        soe_protocol_version: SOE_PROTOCOL_VERSION,
        session_id: lcg_value(lcg_step(v.rng)),
        udp_length: v.params.udp_length,
        application_protocol: v.params.application_protocol,
    }
}

/// A new server session that is asked for by a new client session with the same
/// application protocol runs, with the ID that the client picked, and answers.
pub proof fn request_is_granted(
    client: SessionView,
    params: ParamsView,
    cipher: Option<KeyView>,
    seed: u64,
    start: Instant,
    now: Instant,
)
    requires
        client.state == SessionState::Negotiating,
        client.mode == SessionMode::Client,
        client.params.application_protocol == params.application_protocol,
        !encode_utf8(params.application_protocol).contains(0u8),
    ensures
        ({
            let server = SessionView::initial(SessionMode::Server, params, cipher, seed, start);
            let r = server.processed(client.requested().outgoing.last(), now);
            &&& r.state == SessionState::Running
            &&& r.open_on_next_packet
            &&& r.session_id == client.requested().session_id
            &&& r.params == (ParamsView {
                remote_udp_length: client.params.udp_length,
                crc_length: CRC_LENGTH,
                crc_seed: lcg_value(lcg_step(server.rng)),
                ..params
            })
            &&& r.output.config.max_data_length == r.params.max_data_length()
            &&& r.outgoing == seq![
                be16(op_code_number(OpCode::SessionResponse)) + response_body(r.response()),
            ]
            &&& r.events == Seq::<SessionEvent>::empty()
        }),
{
    let server = SessionView::initial(SessionMode::Server, params, cipher, seed, start);
    let request = first_request(client);
    let d = be16(op_code_number(OpCode::SessionRequest)) + request_body(request);
    assert(client.requested().outgoing.last() == d);
    contextless_packet(server, OpCode::SessionRequest, request_body(request));
    request_round_trip(request);
    reveal(SessionView::contextless_handled);
    let r = server.processed(d, now);
    let known = SessionView {
        params: ParamsView { remote_udp_length: request.udp_length, ..params },
        session_id: request.session_id,
        ..server.touched(now)
    };
    assert(r == known.granted().flushed());
    reveal(SessionView::flushed);
    assert(r.outgoing =~= seq![
        be16(op_code_number(OpCode::SessionResponse)) + response_body(r.response()),
    ]);
}

/// Two new sessions with the same application protocol that exchange a request and a
/// response both run, and agree on the ID, on the CRC and on compression; each knows how
/// much the other accepts. The client is then open, and the server opens with the next
/// packet.
pub proof fn negotiation_agrees(
    client_params: ParamsView,
    server_params: ParamsView,
    client_cipher: Option<KeyView>,
    server_cipher: Option<KeyView>,
    client_seed: u64,
    server_seed: u64,
    start: Instant,
    asked: Instant,
    answered: Instant,
)
    requires
        client_params.application_protocol == server_params.application_protocol,
        !encode_utf8(server_params.application_protocol).contains(0u8),
    ensures
        ({
            let client = SessionView::initial(
                SessionMode::Client,
                client_params,
                client_cipher,
                client_seed,
                start,
            ).requested();
            let server = SessionView::initial(
                SessionMode::Server,
                server_params,
                server_cipher,
                server_seed,
                start,
            ).processed(client.outgoing.last(), asked);
            let open = client.processed(server.outgoing.last(), answered);
            &&& server.state == SessionState::Running
            &&& open.state == SessionState::Running
            &&& open.session_id == server.session_id
            &&& open.params.crc_seed == server.params.crc_seed
            &&& open.params.crc_length == server.params.crc_length == CRC_LENGTH
            &&& open.params.is_compression_enabled == server.params.is_compression_enabled
            &&& open.params.remote_udp_length == server_params.udp_length
            &&& server.params.remote_udp_length == client_params.udp_length
            &&& open.output.config.max_data_length == open.params.max_data_length()
            &&& server.output.config.max_data_length == server.params.max_data_length()
            &&& open.events == seq![SessionEvent::Opened]
            &&& server.open_on_next_packet
        }),
{
    let fresh = SessionView::initial(
        SessionMode::Client,
        client_params,
        client_cipher,
        client_seed,
        start,
    );
    let client = fresh.requested();
    let server = SessionView::initial(
        SessionMode::Server,
        server_params,
        server_cipher,
        server_seed,
        start,
    ).processed(client.outgoing.last(), asked);
    request_is_granted(fresh, server_params, server_cipher, server_seed, start, asked);
    let response = server.response();
    contextless_packet(client, OpCode::SessionResponse, response_body(response));
    response_round_trip(response);
    reveal(SessionView::contextless_handled);
    reveal(SessionView::flushed);
    let open = client.processed(server.outgoing.last(), answered);
    assert(open.events =~= seq![SessionEvent::Opened]);
}

/// A new server session that is asked for with another application protocol ends, and
/// answers nothing.
pub proof fn other_protocol_is_refused(
    client: SessionView,
    params: ParamsView,
    cipher: Option<KeyView>,
    seed: u64,
    start: Instant,
    now: Instant,
)
    requires
        client.state == SessionState::Negotiating,
        client.mode == SessionMode::Client,
        client.params.application_protocol != params.application_protocol,
        !encode_utf8(client.params.application_protocol).contains(0u8),
    ensures
        ({
            let server = SessionView::initial(SessionMode::Server, params, cipher, seed, start);
            let r = server.processed(client.requested().outgoing.last(), now);
            &&& r.state == SessionState::Terminated
            &&& r.termination_reason == DisconnectReason::ProtocolMismatch
            &&& r.outgoing == Seq::<Seq<u8>>::empty()
            &&& r.events == seq![SessionEvent::Closed(DisconnectReason::ProtocolMismatch)]
        }),
{
    let server = SessionView::initial(SessionMode::Server, params, cipher, seed, start);
    let request = first_request(client);
    let d = be16(op_code_number(OpCode::SessionRequest)) + request_body(request);
    assert(client.requested().outgoing.last() == d);
    contextless_packet(server, OpCode::SessionRequest, request_body(request));
    request_round_trip(request);
    reveal(SessionView::contextless_handled);
    reveal(SessionView::terminated);
    reveal(SessionView::flushed);
    let r = server.processed(d, now);
    assert(r.outgoing =~= Seq::<Seq<u8>>::empty());
    assert(r.events =~= seq![SessionEvent::Closed(DisconnectReason::ProtocolMismatch)]);
}

/// How far a session has got in its life.
pub open spec fn stage(state: SessionState) -> int {
    match state {
        SessionState::Negotiating => 0,
        SessionState::Running => 1,
        SessionState::Terminated => 2,
    }
}

/// A datagram never moves a session back. The session gains its one `Closed` exactly when
/// the datagram terminates it, with the reason for which it is terminated. It gains
/// `Opened` exactly when the datagram is valid and is the first for a server that waits
/// for it, or is the response that has a client run.
pub proof fn datagram_moves_session_on(v: SessionView, datagram: Seq<u8>, now: Instant)
    requires
        v.state == SessionState::Negotiating ==> !v.open_on_next_packet,
    ensures
        ({
            let r = v.processed(datagram, now);
            let valid = v.datagram_verdict(datagram) == ValidationResult::Valid;
            let opens = v.state != SessionState::Terminated && valid && (v.open_on_next_packet
                || (v.state == SessionState::Negotiating && v.mode == SessionMode::Client
                && r.state == SessionState::Running));
            let closes = v.state != SessionState::Terminated && r.state
                == SessionState::Terminated;
            &&& stage(r.state) >= stage(v.state)
            &&& v.state == SessionState::Terminated ==> r == v
            &&& r.events == v.events + (if opens {
                seq![SessionEvent::Opened]
            } else {
                Seq::<SessionEvent>::empty()
            }) + (if closes {
                seq![SessionEvent::Closed(r.termination_reason)]
            } else {
                Seq::<SessionEvent>::empty()
            })
        }),
{
    let r = v.processed(datagram, now);
    let none = Seq::<SessionEvent>::empty();
    if v.state == SessionState::Terminated {
        assert(v.events + none + none =~= v.events);
    } else if v.datagram_verdict(datagram) != ValidationResult::Valid {
        terminate_quiet(v, DisconnectReason::CorruptPacket, true, false, now);
        assert(r.events =~= v.events + none + seq![SessionEvent::Closed(r.termination_reason)]);
    } else {
        let op = leading_op_code(datagram)->0;
        let touched = v.touched(now);
        let body = framed_payload(datagram, v.params.crc_length);
        let first = if v.open_on_next_packet {
            seq![SessionEvent::Opened]
        } else {
            none
        };
        assert(touched.events =~= v.events + first);
        let handled = if contextless(op) {
            touched.contextless_handled(op, datagram.skip(2), now)
        } else {
            touched.payload_handled(op, body, now)
        };
        assert(r == handled.flushed());
        assert(handled.flushed().events == handled.events && handled.flushed().state
            == handled.state && handled.flushed().termination_reason
            == handled.termination_reason) by {
            reveal(SessionView::flushed);
        }
        if contextless(op) {
            contextless_moves_on(touched, op, datagram.skip(2), now);
        } else {
            payload_quiet(touched, op, body, now);
        }
        if handled.state == SessionState::Terminated {
            let last = seq![SessionEvent::Closed(r.termination_reason)];
            assert(touched.events.push(SessionEvent::Closed(r.termination_reason))
                =~= touched.events + last);
            assert(r.events =~= v.events + first + last);
        } else if handled.events != touched.events {
            assert(touched.events.push(SessionEvent::Opened) =~= v.events + seq![
                SessionEvent::Opened,
            ] + none);
        } else {
            assert(r.events =~= v.events + first + none);
        }
    }
}

/// What a contextless packet does to the state and the events of a session.
proof fn contextless_moves_on(v: SessionView, op: OpCode, body: Seq<u8>, now: Instant)
    requires
        v.state != SessionState::Terminated,
    ensures
        ({
            let r = v.contextless_handled(op, body, now);
            &&& stage(r.state) >= stage(v.state)
            &&& r.events == (if r.state == SessionState::Terminated {
                v.events.push(SessionEvent::Closed(r.termination_reason))
            } else if v.state == SessionState::Negotiating && v.mode == SessionMode::Client
                && r.state == SessionState::Running {
                v.events.push(SessionEvent::Opened)
            } else {
                v.events
            })
        }),
{
    reveal(SessionView::contextless_handled);
    terminate_quiet(v, DisconnectReason::ConnectingToSelf, false, false, now);
    terminate_quiet(v, DisconnectReason::CorruptPacket, true, false, now);
    terminate_quiet(v, DisconnectReason::ConnectError, true, false, now);
    terminate_quiet(v, DisconnectReason::ProtocolMismatch, true, false, now);
    terminate_quiet(v, DisconnectReason::UnreachableConnection, false, false, now);
    match request_of(body) {
        Ok(request) => {
            let known = SessionView {
                params: ParamsView { remote_udp_length: request.udp_length, ..v.params },
                session_id: request.session_id,
                ..v
            };
            terminate_quiet(known, DisconnectReason::ConnectError, true, false, now);
            terminate_quiet(known, DisconnectReason::ProtocolMismatch, true, false, now);
        },
        Err(_) => {},
    }
}

/// Whether the events of a session, of which `taken` were taken already, are in order:
/// it opens at most once, closes at most once, and does nothing after that.
pub open spec fn orderly(v: SessionView, taken: Seq<SessionEvent>) -> bool {
    let all = taken + v.events;
    match v.state {
        SessionState::Negotiating => all == Seq::<SessionEvent>::empty()
            && !v.open_on_next_packet,
        SessionState::Running => all == (if v.open_on_next_packet {
            Seq::<SessionEvent>::empty()
        } else {
            seq![SessionEvent::Opened]
        }),
        SessionState::Terminated => all == seq![SessionEvent::Closed(v.termination_reason)]
            || all == seq![SessionEvent::Opened, SessionEvent::Closed(v.termination_reason)],
    }
}

/// Whether `r` came of `v` without an event, or by closing.
pub(crate) open spec fn quiet(v: SessionView, r: SessionView) -> bool {
    ||| {
        &&& r.state == v.state
        &&& r.events == v.events
        &&& r.open_on_next_packet == v.open_on_next_packet
        &&& r.termination_reason == v.termination_reason
    }
    ||| {
        &&& v.state != SessionState::Terminated
        &&& r.state == SessionState::Terminated
        &&& r.events == v.events.push(SessionEvent::Closed(r.termination_reason))
    }
}

proof fn terminate_quiet(
    v: SessionView,
    reason: DisconnectReason,
    notify_remote: bool,
    by_remote: bool,
    now: Instant,
)
    ensures
        quiet(v, v.terminated(reason, notify_remote, by_remote, now)),
        v.terminated(reason, notify_remote, by_remote, now).state == SessionState::Terminated,
{
    reveal(SessionView::terminated);
    reveal(SessionView::flushed);
}

proof fn contextual_quiet(v: SessionView, op: OpCode, body: Seq<u8>, now: Instant)
    ensures
        quiet(v, v.contextual_handled(op, body, now)),
    decreases body.len(), 1int,
{
    if op == OpCode::MultiPacket {
        bundle_quiet(v, body, now);
    } else {
        reveal(SessionView::single_handled);
        match disconnect_of(body) {
            Ok(d) => {
                terminate_quiet(v, d.reason, false, true, now);
            },
            Err(_) => {},
        }
        let a = SessionView { input: v.input.handle(body, false, now).0, ..v };
        let b = SessionView { input: v.input.handle(body, true, now).0, ..v };
        terminate_quiet(a, DisconnectReason::CorruptPacket, true, false, now);
        terminate_quiet(b, DisconnectReason::CorruptPacket, true, false, now);
    }
}

proof fn bundle_quiet(v: SessionView, rest: Seq<u8>, now: Instant)
    ensures
        quiet(v, v.bundle_handled(rest, now)),
    decreases rest.len(), 0int,
{
    terminate_quiet(v, DisconnectReason::CorruptPacket, true, false, now);
    if rest.len() > 0 {
        match multi_packet::length_at_start(rest) {
            None => {},
            Some((n, used)) => if n < OP_CODE_SIZE || n > rest.len() - used {
            } else {
                let sub = rest.subrange(used as int, used + n);
                match leading_op_code(sub) {
                    None => {},
                    Some(op) => {
                        let next = v.contextual_handled(op, sub.skip(2), now);
                        contextual_quiet(v, op, sub.skip(2), now);
                        if next.state != SessionState::Terminated {
                            bundle_quiet(next, rest.skip(used + n), now);
                        }
                    },
                }
            },
        }
    }
}

pub(crate) proof fn payload_quiet(v: SessionView, op: OpCode, body: Seq<u8>, now: Instant)
    ensures
        quiet(v, v.payload_handled(op, body, now)),
{
    reveal(SessionView::payload_handled);
    contextual_quiet(v, op, body, now);
    contextual_quiet(v, op, body.skip(1), now);
    match inflated(body.skip(1), MAX_INFLATED_LENGTH) {
        Some(plain) => {
            contextual_quiet(v, op, plain, now);
        },
        None => {},
    }
    terminate_quiet(v, DisconnectReason::CorruptPacket, true, false, now);
}

proof fn quiet_is_orderly(v: SessionView, r: SessionView, taken: Seq<SessionEvent>)
    requires
        orderly(v, taken),
        quiet(v, r),
    ensures
        orderly(r, taken),
{
    if r.events != v.events {
        let closed = SessionEvent::Closed(r.termination_reason);
        assert(taken + r.events =~= (taken + v.events).push(closed));
        assert(Seq::<SessionEvent>::empty().push(closed) =~= seq![closed]);
        assert(seq![SessionEvent::Opened].push(closed) =~= seq![SessionEvent::Opened, closed]);
    }
}

proof fn touch_is_orderly(v: SessionView, taken: Seq<SessionEvent>, now: Instant)
    requires
        orderly(v, taken),
        v.state != SessionState::Terminated,
    ensures
        orderly(v.touched(now), taken),
{
    if v.open_on_next_packet {
        assert(taken + v.touched(now).events =~= (taken + v.events).push(SessionEvent::Opened));
        assert(Seq::<SessionEvent>::empty().push(SessionEvent::Opened) =~= seq![
            SessionEvent::Opened,
        ]);
    }
}

proof fn contextless_is_orderly(
    v: SessionView,
    taken: Seq<SessionEvent>,
    op: OpCode,
    body: Seq<u8>,
    now: Instant,
)
    requires
        orderly(v, taken),
        v.state != SessionState::Terminated,
    ensures
        orderly(v.contextless_handled(op, body, now), taken),
{
    reveal(SessionView::contextless_handled);
    let r = v.contextless_handled(op, body, now);
    match op {
        OpCode::SessionRequest => {
            match request_of(body) {
                Ok(request) => {
                    let known = SessionView {
                        params: ParamsView {
                            remote_udp_length: request.udp_length,
                            ..v.params
                        },
                        session_id: request.session_id,
                        ..v
                    };
                    terminate_quiet(known, DisconnectReason::ConnectError, true, false, now);
                    terminate_quiet(known, DisconnectReason::ProtocolMismatch, true, false, now);
                },
                Err(_) => {},
            }
            terminate_quiet(v, DisconnectReason::ConnectingToSelf, false, false, now);
            terminate_quiet(v, DisconnectReason::CorruptPacket, true, false, now);
            if r.state == SessionState::Terminated {
                quiet_is_orderly(v, r, taken);
            }
        },
        OpCode::SessionResponse => {
            terminate_quiet(v, DisconnectReason::ConnectingToSelf, false, false, now);
            terminate_quiet(v, DisconnectReason::CorruptPacket, true, false, now);
            terminate_quiet(v, DisconnectReason::ConnectError, true, false, now);
            terminate_quiet(v, DisconnectReason::ProtocolMismatch, true, false, now);
            if r.state == SessionState::Terminated {
                quiet_is_orderly(v, r, taken);
            } else {
                assert(taken + r.events =~= (taken + v.events).push(SessionEvent::Opened));
                assert(Seq::<SessionEvent>::empty().push(SessionEvent::Opened) =~= seq![
                    SessionEvent::Opened,
                ]);
            }
        },
        OpCode::UnknownSender => {
            terminate_quiet(v, DisconnectReason::UnreachableConnection, false, false, now);
            quiet_is_orderly(v, r, taken);
        },
        _ => {},
    }
}

/// A new session has its events in order, and no data before it has opened.
pub proof fn initial_is_orderly(
    mode: SessionMode,
    params: ParamsView,
    cipher: Option<KeyView>,
    seed: u64,
    now: Instant,
)
    ensures
        orderly(SessionView::initial(mode, params, cipher, seed, now), Seq::empty()),
        opened_before_data(
            SessionView::initial(mode, params, cipher, seed, now),
            Seq::empty(),
            Seq::empty(),
        ),
{
    assert(Seq::<SessionEvent>::empty() + Seq::<SessionEvent>::empty() =~= Seq::<
        SessionEvent,
    >::empty());
}

/// The events of a session stay in order, whatever happens and whenever they are taken.
pub proof fn events_stay_orderly(
    v: SessionView,
    taken: Seq<SessionEvent>,
    datagram: Seq<u8>,
    data: Seq<u8>,
    reason: DisconnectReason,
    notify_remote: bool,
    now: Instant,
)
    requires
        orderly(v, taken),
    ensures
        orderly(v.processed(datagram, now), taken),
        orderly(v.ticked(now), taken),
        orderly(v.terminated(reason, notify_remote, false, now), taken),
        orderly(v.requested(), taken),
        orderly(v.enqueued(data), taken),
        orderly(SessionView { events: Seq::empty(), ..v }, taken + v.events),
{
    assert((taken + v.events) + Seq::<SessionEvent>::empty() =~= taken + v.events);
    terminate_quiet(v, reason, notify_remote, false, now);
    quiet_is_orderly(v, v.terminated(reason, notify_remote, false, now), taken);
    if v.state != SessionState::Terminated {
        process_is_orderly(v, taken, datagram, now);
        tick_is_orderly(v, taken, now);
    }
}

proof fn tick_is_orderly(v: SessionView, taken: Seq<SessionEvent>, now: Instant)
    requires
        orderly(v, taken),
        v.state != SessionState::Terminated,
    ensures
        orderly(v.ticked(now), taken),
{
    let beaten = if v.heartbeat_due(now) {
        v.sending(v.params.frame(OpCode::Heartbeat, Seq::empty()))
    } else {
        v
    };
    terminate_quiet(beaten, DisconnectReason::Timeout, false, false, now);
    assert(quiet(v, v.ticked(now))) by {
        reveal(SessionView::flushed);
    }
    quiet_is_orderly(v, v.ticked(now), taken);
}

proof fn process_is_orderly(
    v: SessionView,
    taken: Seq<SessionEvent>,
    datagram: Seq<u8>,
    now: Instant,
)
    requires
        orderly(v, taken),
        v.state != SessionState::Terminated,
    ensures
        orderly(v.processed(datagram, now), taken),
{
    let touched = v.touched(now);
    if v.datagram_verdict(datagram) != ValidationResult::Valid {
        terminate_quiet(v, DisconnectReason::CorruptPacket, true, false, now);
        quiet_is_orderly(v, v.corrupted(now), taken);
    } else {
        let op = leading_op_code(datagram)->0;
        touch_is_orderly(v, taken, now);
        let body = framed_payload(datagram, v.params.crc_length);
        let r = if contextless(op) {
            touched.contextless_handled(op, datagram.skip(2), now)
        } else {
            touched.payload_handled(op, body, now)
        };
        if contextless(op) {
            contextless_is_orderly(touched, taken, op, datagram.skip(2), now);
        } else {
            payload_quiet(touched, op, body, now);
            quiet_is_orderly(touched, r, taken);
        }
        assert(quiet(r, r.flushed())) by {
            reveal(SessionView::flushed);
        }
        quiet_is_orderly(r, r.flushed(), taken);
    }
}

/// Once a running session has processed a valid datagram it has opened, before any event
/// that this datagram gives rise to.
pub proof fn opened_first(
    v: SessionView,
    taken: Seq<SessionEvent>,
    datagram: Seq<u8>,
    now: Instant,
)
    requires
        orderly(v, taken),
        v.state == SessionState::Running,
        v.datagram_verdict(datagram) == ValidationResult::Valid,
    ensures
        ({
            let all = taken + v.processed(datagram, now).events;
            all.len() >= 1 && all[0] == SessionEvent::Opened
        }),
{
    let touched = v.touched(now);
    touch_is_orderly(v, taken, now);
    let op = leading_op_code(datagram)->0;
    let body = framed_payload(datagram, v.params.crc_length);
    let r = if contextless(op) {
        touched.contextless_handled(op, datagram.skip(2), now)
    } else {
        touched.payload_handled(op, body, now)
    };
    assert(touched.events.is_prefix_of(r.events)) by {
        payload_quiet(touched, op, body, now);
        contextless_moves_on(touched, op, datagram.skip(2), now);
    }
    assert(r.flushed().events == r.events) by {
        reveal(SessionView::flushed);
    }
    assert((taken + touched.events).is_prefix_of(taken + r.events));
    assert((taken + touched.events)[0] == SessionEvent::Opened);
    assert((taken + r.events)[0] == (taken + touched.events)[0]);
}

/// Whether a session has opened before any application data came out of it. `taken` and
/// `handed` are the events and the data that were taken from it before.
pub open spec fn opened_before_data(
    v: SessionView,
    taken: Seq<SessionEvent>,
    handed: Seq<Seq<u8>>,
) -> bool {
    (handed + v.received).len() > 0 ==> opened_at_first(v, taken)
}

/// Whether the first event of a session is that it opened.
pub open spec fn opened_at_first(v: SessionView, taken: Seq<SessionEvent>) -> bool {
    (taken + v.events).len() > 0 && (taken + v.events)[0] == SessionEvent::Opened
}

/// Whether `r` came of `v` with no event gone, and either without new data or opened.
spec fn surfaces(v: SessionView, r: SessionView, taken: Seq<SessionEvent>) -> bool {
    &&& v.events.is_prefix_of(r.events)
    &&& r.received == v.received || opened_at_first(r, taken)
}

proof fn first_event_stays(v: SessionView, r: SessionView, taken: Seq<SessionEvent>)
    requires
        v.events.is_prefix_of(r.events),
        opened_at_first(v, taken),
    ensures
        opened_at_first(r, taken),
{
    if taken.len() == 0 {
        assert(r.events[0] == r.events.take(v.events.len() as int)[0]);
    }
}

proof fn surfacing_keeps(
    v: SessionView,
    r: SessionView,
    taken: Seq<SessionEvent>,
    handed: Seq<Seq<u8>>,
)
    requires
        opened_before_data(v, taken, handed),
        surfaces(v, r, taken),
    ensures
        opened_before_data(r, taken, handed),
{
    if r.received == v.received && (handed + r.received).len() > 0 {
        first_event_stays(v, r, taken);
    }
}

proof fn surfacing_twice(a: SessionView, b: SessionView, c: SessionView, taken: Seq<SessionEvent>)
    requires
        surfaces(a, b, taken),
        surfaces(b, c, taken),
    ensures
        surfaces(a, c, taken),
{
    assert(c.events.take(b.events.len() as int).take(a.events.len() as int) =~= c.events.take(
        a.events.len() as int,
    ));
    if c.received == b.received && b.received != a.received {
        first_event_stays(b, c, taken);
    }
}

proof fn flush_surfaces(v: SessionView, taken: Seq<SessionEvent>)
    requires
        orderly(v, taken),
    ensures
        surfaces(v, v.flushed(), taken),
{
    reveal(SessionView::flushed);
}

proof fn terminate_surfaces(
    v: SessionView,
    taken: Seq<SessionEvent>,
    reason: DisconnectReason,
    notify_remote: bool,
    by_remote: bool,
    now: Instant,
)
    requires
        orderly(v, taken),
    ensures
        surfaces(v, v.terminated(reason, notify_remote, by_remote, now), taken),
{
    reveal(SessionView::terminated);
    if v.state != SessionState::Terminated {
        let r = v.terminated(reason, notify_remote, by_remote, now);
        let ticked = SessionView { output: v.output.ticked(now), ..v };
        flush_surfaces(ticked, taken);
        let flushed = ticked.flushed();
        assert(flushed.events == v.events) by {
            reveal(SessionView::flushed);
        }
        assert(flushed.events.is_prefix_of(r.events));
        if flushed.received != v.received {
            first_event_stays(flushed, r, taken);
        }
    }
}

proof fn contextless_surfaces(
    v: SessionView,
    taken: Seq<SessionEvent>,
    op: OpCode,
    body: Seq<u8>,
    now: Instant,
)
    requires
        orderly(v, taken),
    ensures
        surfaces(v, v.contextless_handled(op, body, now), taken),
{
    reveal(SessionView::contextless_handled);
    terminate_surfaces(v, taken, DisconnectReason::ConnectingToSelf, false, false, now);
    terminate_surfaces(v, taken, DisconnectReason::CorruptPacket, true, false, now);
    terminate_surfaces(v, taken, DisconnectReason::ConnectError, true, false, now);
    terminate_surfaces(v, taken, DisconnectReason::ProtocolMismatch, true, false, now);
    terminate_surfaces(v, taken, DisconnectReason::UnreachableConnection, false, false, now);
    match request_of(body) {
        Ok(request) => {
            let known = SessionView {
                params: ParamsView { remote_udp_length: request.udp_length, ..v.params },
                session_id: request.session_id,
                ..v
            };
            terminate_surfaces(known, taken, DisconnectReason::ConnectError, true, false, now);
            terminate_surfaces(
                known,
                taken,
                DisconnectReason::ProtocolMismatch,
                true,
                false,
                now,
            );
        },
        Err(_) => {},
    }
}

proof fn contextual_surfaces(
    v: SessionView,
    taken: Seq<SessionEvent>,
    op: OpCode,
    body: Seq<u8>,
    now: Instant,
)
    requires
        orderly(v, taken),
    ensures
        surfaces(v, v.contextual_handled(op, body, now), taken),
    decreases body.len(), 1int,
{
    if op == OpCode::MultiPacket {
        bundle_surfaces(v, taken, body, now);
    } else {
        reveal(SessionView::single_handled);
        match disconnect_of(body) {
            Ok(d) => {
                terminate_surfaces(v, taken, d.reason, false, true, now);
            },
            Err(_) => {},
        }
        let a = SessionView { input: v.input.handle(body, false, now).0, ..v };
        let b = SessionView { input: v.input.handle(body, true, now).0, ..v };
        terminate_surfaces(a, taken, DisconnectReason::CorruptPacket, true, false, now);
        terminate_surfaces(b, taken, DisconnectReason::CorruptPacket, true, false, now);
    }
}

proof fn bundle_surfaces(v: SessionView, taken: Seq<SessionEvent>, rest: Seq<u8>, now: Instant)
    requires
        orderly(v, taken),
    ensures
        surfaces(v, v.bundle_handled(rest, now), taken),
    decreases rest.len(), 0int,
{
    terminate_surfaces(v, taken, DisconnectReason::CorruptPacket, true, false, now);
    if rest.len() > 0 {
        match multi_packet::length_at_start(rest) {
            None => {},
            Some((n, used)) => if n < OP_CODE_SIZE || n > rest.len() - used {
            } else {
                let sub = rest.subrange(used as int, used + n);
                match leading_op_code(sub) {
                    None => {},
                    Some(op) => {
                        let next = v.contextual_handled(op, sub.skip(2), now);
                        let others = rest.skip(used + n);
                        contextual_quiet(v, op, sub.skip(2), now);
                        quiet_is_orderly(v, next, taken);
                        contextual_surfaces(v, taken, op, sub.skip(2), now);
                        if next.state != SessionState::Terminated {
                            bundle_surfaces(next, taken, others, now);
                            surfacing_twice(v, next, next.bundle_handled(others, now), taken);
                        }
                    },
                }
            },
        }
    }
}

proof fn payload_surfaces(
    v: SessionView,
    taken: Seq<SessionEvent>,
    op: OpCode,
    body: Seq<u8>,
    now: Instant,
)
    requires
        orderly(v, taken),
    ensures
        surfaces(v, v.payload_handled(op, body, now), taken),
{
    reveal(SessionView::payload_handled);
    contextual_surfaces(v, taken, op, body, now);
    contextual_surfaces(v, taken, op, body.skip(1), now);
    match inflated(body.skip(1), MAX_INFLATED_LENGTH) {
        Some(plain) => {
            contextual_surfaces(v, taken, op, plain, now);
        },
        None => {},
    }
    terminate_surfaces(v, taken, DisconnectReason::CorruptPacket, true, false, now);
}

/// A session opens before any application data comes out of it, and stays so whatever
/// happens.
pub proof fn data_only_after_open(
    v: SessionView,
    taken: Seq<SessionEvent>,
    handed: Seq<Seq<u8>>,
    datagram: Seq<u8>,
    reason: DisconnectReason,
    notify_remote: bool,
    now: Instant,
)
    requires
        orderly(v, taken),
        opened_before_data(v, taken, handed),
    ensures
        opened_before_data(v.processed(datagram, now), taken, handed),
        opened_before_data(v.ticked(now), taken, handed),
        opened_before_data(
            v.terminated(reason, notify_remote, false, now),
            taken,
            handed,
        ),
        opened_before_data(
            SessionView { events: Seq::empty(), ..v },
            taken + v.events,
            handed,
        ),
        opened_before_data(
            SessionView { received: Seq::empty(), ..v },
            taken,
            handed + v.received,
        ),
{
    terminate_surfaces(v, taken, reason, notify_remote, false, now);
    surfacing_keeps(v, v.terminated(reason, notify_remote, false, now), taken, handed);
    assert((taken + v.events) + Seq::<SessionEvent>::empty() =~= taken + v.events);
    assert((handed + v.received) + Seq::<Seq<u8>>::empty() =~= handed + v.received);
    if v.state != SessionState::Terminated {
        tick_surfaces(v, taken, now);
        surfacing_keeps(v, v.ticked(now), taken, handed);
        process_surfaces(v, taken, datagram, now);
        surfacing_keeps(v, v.processed(datagram, now), taken, handed);
    }
}

proof fn tick_surfaces(v: SessionView, taken: Seq<SessionEvent>, now: Instant)
    requires
        orderly(v, taken),
        v.state != SessionState::Terminated,
    ensures
        surfaces(v, v.ticked(now), taken),
{
    let beaten = if v.heartbeat_due(now) {
        v.sending(v.params.frame(OpCode::Heartbeat, Seq::empty()))
    } else {
        v
    };
    terminate_surfaces(beaten, taken, DisconnectReason::Timeout, false, false, now);
    let ticked = SessionView {
        input: v.input.ticked(now),
        output: v.output.ticked(now),
        ..beaten
    };
    flush_surfaces(ticked, taken);
}

proof fn process_surfaces(
    v: SessionView,
    taken: Seq<SessionEvent>,
    datagram: Seq<u8>,
    now: Instant,
)
    requires
        orderly(v, taken),
        v.state != SessionState::Terminated,
    ensures
        surfaces(v, v.processed(datagram, now), taken),
{
    if v.datagram_verdict(datagram) != ValidationResult::Valid {
        terminate_surfaces(v, taken, DisconnectReason::CorruptPacket, true, false, now);
    } else {
        let op = leading_op_code(datagram)->0;
        let touched = v.touched(now);
        let body = framed_payload(datagram, v.params.crc_length);
        touch_is_orderly(v, taken, now);
        assert(surfaces(v, touched, taken));
        let handled = if contextless(op) {
            touched.contextless_handled(op, datagram.skip(2), now)
        } else {
            touched.payload_handled(op, body, now)
        };
        if contextless(op) {
            contextless_surfaces(touched, taken, op, datagram.skip(2), now);
            contextless_is_orderly(touched, taken, op, datagram.skip(2), now);
        } else {
            payload_surfaces(touched, taken, op, body, now);
            payload_quiet(touched, op, body, now);
            quiet_is_orderly(touched, handled, taken);
        }
        flush_surfaces(handled, taken);
        surfacing_twice(v, touched, handled, taken);
        surfacing_twice(v, handled, handled.flushed(), taken);
    }
}

} // verus!
