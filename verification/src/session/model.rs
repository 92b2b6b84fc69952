//! What a session holds, and what becomes of it.
use vstd::prelude::*;

use crate::buffer::fits;
use crate::channel::input::{handle_keeps, InputConfig, InputView};
use crate::channel::output::{acknowledge_keeps, tick_keeps, OutputConfig, OutputView};
use crate::constants::{
    CRC_LENGTH, MAX_DATAGRAM_LENGTH, MAX_SEQUENCE, OP_CODE_SIZE, SOE_PROTOCOL_VERSION,
};
use crate::packet_utils::{frame, framed_payload, leading_op_code, verdict, ValidationResult};
use crate::packets::{
    acknowledged_of, disconnect_body, disconnect_of, request_body, request_of, response_body,
    response_of, Disconnect, SessionRequestView, SessionResponse,
};
use crate::protocol::{contextless, op_code_number, DisconnectReason, OpCode};
use crate::rc4::KeyView;
use crate::session::{SessionEvent, SessionMode, SessionState};
use crate::time::{elapsed, Duration, Instant};
use crate::varint::multi_packet;
use crate::wire::be16;
use crate::zlib::{inflated, MAX_INFLATED_LENGTH};

verus! {

/// The parameters of a session, with the application protocol as the text that it is.
pub struct ParamsView {
    /// The application protocol being proxied.
    pub application_protocol: Seq<char>,
    /// The maximum UDP payload length this party can receive.
    pub udp_length: u32,
    /// The maximum UDP payload length the remote party can receive.
    pub remote_udp_length: u32,
    /// The seed used to compute packet CRCs.
    pub crc_seed: u32,
    /// The number of bytes used to store a packet CRC.
    pub crc_length: u8,
    /// Whether contextual packets may be compressed.
    pub is_compression_enabled: bool,
    /// The maximum number of incoming reliable data packets that may be queued.
    pub max_queued_incoming_reliable: u16,
    /// The maximum number of outgoing reliable data packets in flight at once.
    pub max_queued_outgoing_reliable: u16,
    /// The acknowledgement window used by the input channel.
    pub data_ack_window: u16,
    /// The interval after which to send a heartbeat.
    pub heartbeat_after: Duration,
    /// The interval after which to terminate an inactive session.
    pub inactivity_timeout: Duration,
    /// Whether every incoming reliable data packet is acknowledged individually.
    pub acknowledge_all_data: bool,
    /// The maximum delay before acknowledging incoming reliable data sequences.
    pub max_ack_delay: Duration,
}

impl ParamsView {
    /// How the input channel of a session is configured.
    pub open spec fn input_config(self) -> InputConfig {
        InputConfig {
            max_queued_incoming: self.max_queued_incoming_reliable,
            acknowledge_all_data: self.acknowledge_all_data,
            data_ack_window: self.data_ack_window,
            max_ack_delay: self.max_ack_delay,
        }
    }

    /// The bytes that a contextual packet holds beside its payload.
    pub open spec fn overhead(self) -> int {
        OP_CODE_SIZE + self.crc_length + (if self.is_compression_enabled {
            1int
        } else {
            0
        })
    }

    /// The bytes that the remote accepts as the payload of a contextual packet.
    pub open spec fn max_data_length(self) -> usize {
        if self.remote_udp_length < self.overhead() {
            0
        } else {
            (self.remote_udp_length - self.overhead()) as usize
        }
    }

    /// A contextual packet on the wire.
    pub open spec fn frame(self, op: OpCode, payload: Seq<u8>) -> Seq<u8> {
        frame(op, payload, self.crc_seed, self.crc_length, self.is_compression_enabled)
    }
}

/// The parameters of a session, unless they are set.
pub open spec fn default_params() -> ParamsView {
    ParamsView {
        application_protocol: Seq::empty(),
        udp_length: 512,
        remote_udp_length: 512,
        crc_seed: 0,
        crc_length: 2,
        is_compression_enabled: false,
        max_queued_incoming_reliable: 256,
        max_queued_outgoing_reliable: 196,
        data_ack_window: 32,
        heartbeat_after: Duration { nanos: 25_000_000_000 },
        inactivity_timeout: Duration { nanos: 30_000_000_000 },
        acknowledge_all_data: false,
        max_ack_delay: Duration { nanos: 2_000_000 },
    }
}

/// The state of the generator after one step.
pub open spec fn lcg_step(state: u64) -> u64 {
    state.wrapping_mul(6_364_136_223_846_793_005).wrapping_add(1_442_695_040_888_963_407)
}

/// The number that a state of the generator gives.
pub open spec fn lcg_value(state: u64) -> u32 {
    (state >> 32) as u32
}

/// What a session holds.
#[verifier::ext_equal]
pub struct SessionView {
    /// Whether the session was asked for here or by the remote.
    pub mode: SessionMode,
    /// Where in its life the session is.
    pub state: SessionState,
    /// The parameters, as agreed so far.
    pub params: ParamsView,
    /// The channel for reliable data from the remote.
    pub input: InputView,
    /// The channel for reliable data to the remote.
    pub output: OutputView,
    /// The ID of the session.
    pub session_id: u32,
    /// Why the session ended.
    pub termination_reason: DisconnectReason,
    /// Whether the remote ended the session.
    pub terminated_by_remote: bool,
    /// Whether the next packet opens the session.
    pub open_on_next_packet: bool,
    /// When the last valid packet came in.
    pub last_received: Instant,
    /// The state of the generator.
    pub rng: u64,
    /// Datagrams to send that were not yet taken.
    pub outgoing: Seq<Seq<u8>>,
    /// Application data not yet taken.
    pub received: Seq<Seq<u8>>,
    /// Events not yet taken.
    pub events: Seq<SessionEvent>,
}

impl SessionView {
    /// What holds of a session at all times.
    pub open spec fn wf(self) -> bool {
        &&& self.input.wf()
        &&& self.output.wf()
    }

    /// Whether a session has the room to handle a packet with `n` bytes: its sequences
    /// stay in range.
    pub open spec fn roomy(self, n: int) -> bool {
        &&& self.input.window_start + (n + 1) * 0x2_0000 <= 2 * MAX_SEQUENCE
        &&& self.output.max_client + (n + 1) * 0x2_0000 <= 2 * MAX_SEQUENCE
    }

    /// Whether a session can take in a datagram: it is no longer than a datagram can be,
    /// and the sequences stay in range.
    pub open spec fn ready(self, datagram: Seq<u8>) -> bool {
        &&& datagram.len() <= MAX_DATAGRAM_LENGTH
        &&& self.input.window_start <= MAX_SEQUENCE
        &&& self.output.max_client <= MAX_SEQUENCE
    }

    /// Whether a session has opened and still runs.
    pub open spec fn is_open(self) -> bool {
        self.state == SessionState::Running && !self.open_on_next_packet
    }

    /// Whether a session can be given application data to send: it is not running and
    /// drops it, or its packets can carry it.
    pub open spec fn can_enqueue(self, data: Seq<u8>) -> bool {
        self.state == SessionState::Running ==> {
            &&& self.output.can_carry(data)
            &&& self.output.total <= MAX_SEQUENCE
            &&& fits(data.len() + 7)
        }
    }

    /// Whether a session can be given any application data of `n` bytes to send.
    pub open spec fn accepts(self, n: int) -> bool {
        self.state == SessionState::Running ==> {
            &&& self.output.config.max_data_length >= 6 || n + 3
                <= self.output.config.max_data_length
            &&& self.output.total <= MAX_SEQUENCE
            &&& 4 * (n + 7) <= isize::MAX
        }
    }

    /// A session that is yet to be negotiated.
    pub open spec fn initial(
        mode: SessionMode,
        params: ParamsView,
        cipher: Option<KeyView>,
        rng_seed: u64,
        now: Instant,
    ) -> Self {
        SessionView {
            mode,
            state: SessionState::Negotiating,
            params,
            input: InputView::initial(params.input_config(), cipher, now),
            output: OutputView::initial(
                OutputConfig {
                    max_data_length: params.max_data_length(),
                    max_queued_outgoing: params.max_queued_outgoing_reliable as usize,
                    ack_wait: Duration { nanos: 500_000_000 },
                },
                cipher,
                now,
            ),
            session_id: 0,
            termination_reason: DisconnectReason::Unspecified,
            terminated_by_remote: false,
            open_on_next_packet: false,
            last_received: now,
            rng: rng_seed ^ 0x9E37_79B9_7F4A_7C15,
            outgoing: Seq::empty(),
            received: Seq::empty(),
            events: Seq::empty(),
        }
    }

    /// The session with one more datagram to send.
    pub open spec fn sending(self, datagram: Seq<u8>) -> Self {
        SessionView { outgoing: self.outgoing.push(datagram), ..self }
    }

    /// The session once it has asked for itself to be opened.
    pub open spec fn requested(self) -> Self {
        if self.state != SessionState::Negotiating || self.mode != SessionMode::Client {
            self
        } else {
            let rng = lcg_step(self.rng);
            let request = SessionRequestView {
                soe_protocol_version: SOE_PROTOCOL_VERSION,
                session_id: lcg_value(rng),
                udp_length: self.params.udp_length,
                application_protocol: self.params.application_protocol,
            };
            SessionView { rng, session_id: lcg_value(rng), ..self }.sending(
                be16(op_code_number(OpCode::SessionRequest)) + request_body(request),
            )
        }
    }

    /// The session once it was given application data to send.
    pub open spec fn enqueued(self, data: Seq<u8>) -> Self {
        if self.state != SessionState::Running {
            self
        } else {
            SessionView { output: self.output.enqueued(data), ..self }
        }
    }

    /// The acknowledgements of the input channel, framed.
    pub open spec fn framed_acks(self) -> Seq<Seq<u8>> {
        Seq::new(
            self.input.outgoing.len(),
            |k: int|
                self.params.frame(
                    self.input.outgoing[k].op_code,
                    be16(self.input.outgoing[k].sequence),
                ),
        )
    }

    /// The packets of the output channel, framed.
    pub open spec fn framed_packets(self) -> Seq<Seq<u8>> {
        Seq::new(
            self.output.outgoing.len(),
            |k: int|
                self.params.frame(
                    self.output.outgoing[k].op_code,
                    self.output.outgoing[k].payload,
                ),
        )
    }

    /// The session once it has collected what its channels want to send and have
    /// received. What they have received is held back until the session has opened.
    #[verifier::opaque]
    pub open spec fn flushed(self) -> Self {
        SessionView {
            input: InputView {
                outgoing: Seq::empty(),
                app_data: if self.is_open() {
                    Seq::empty()
                } else {
                    self.input.app_data
                },
                ..self.input
            },
            output: OutputView { outgoing: Seq::empty(), ..self.output },
            outgoing: self.outgoing + self.framed_acks() + self.framed_packets(),
            received: if self.is_open() {
                self.received + self.input.app_data
            } else {
                self.received
            },
            ..self
        }
    }

    /// The session once it is terminated. What is due is sent first; the remote can be
    /// told once the session was running.
    #[verifier::opaque]
    pub open spec fn terminated(
        self,
        reason: DisconnectReason,
        notify_remote: bool,
        by_remote: bool,
        now: Instant,
    ) -> Self {
        if self.state == SessionState::Terminated {
            self
        } else {
            let last = SessionView { output: self.output.ticked(now), ..self }.flushed();
            let told = if notify_remote && self.state == SessionState::Running {
                last.sending(
                    self.params.frame(
                        OpCode::Disconnect,
                        disconnect_body(Disconnect { session_id: self.session_id, reason }),
                    ),
                )
            } else {
                last
            };
            SessionView {
                state: SessionState::Terminated,
                termination_reason: reason,
                terminated_by_remote: by_remote,
                events: told.events.push(SessionEvent::Closed(reason)),
                ..told
            }
        }
    }

    /// The session once it has found a packet corrupt.
    pub open spec fn corrupted(self, now: Instant) -> Self {
        self.terminated(DisconnectReason::CorruptPacket, true, false, now)
    }

    /// The session once it was asked for.
    pub open spec fn session_requested(self, body: Seq<u8>, now: Instant) -> Self {
        if self.mode == SessionMode::Client {
            self.terminated(DisconnectReason::ConnectingToSelf, false, false, now)
        } else {
            match request_of(body) {
                Err(_) => self.corrupted(now),
                Ok(request) => {
                    let known = SessionView {
                        params: ParamsView {
                            remote_udp_length: request.udp_length,
                            ..self.params
                        },
                        session_id: request.session_id,
                        ..self
                    };
                    if self.state != SessionState::Negotiating {
                        known.terminated(DisconnectReason::ConnectError, true, false, now)
                    } else if request.soe_protocol_version != SOE_PROTOCOL_VERSION
                        || request.application_protocol != self.params.application_protocol {
                        known.terminated(DisconnectReason::ProtocolMismatch, true, false, now)
                    } else {
                        known.granted()
                    }
                },
            }
        }
    }

    /// What a session answers when it grants a request.
    pub open spec fn response(self) -> SessionResponse {
        SessionResponse {
            session_id: self.session_id,
            crc_seed: self.params.crc_seed,
            crc_length: self.params.crc_length,
            is_compression_enabled: self.params.is_compression_enabled,
            unknown_value_1: 0,
            udp_length: self.params.udp_length,
            soe_protocol_version: SOE_PROTOCOL_VERSION,
        }
    }

    /// The session once it has agreed on parameters and runs.
    pub open spec fn running(self) -> Self {
        SessionView {
            state: SessionState::Running,
            output: OutputView {
                config: OutputConfig {
                    max_data_length: self.params.max_data_length(),
                    ..self.output.config
                },
                ..self.output
            },
            ..self
        }
    }

    /// The session once it has granted a request.
    pub open spec fn granted(self) -> Self {
        let rng = lcg_step(self.rng);
        let agreed = SessionView {
            params: ParamsView {
                crc_length: CRC_LENGTH,
                crc_seed: lcg_value(rng),
                ..self.params
            },
            rng,
            ..self
        };
        SessionView { open_on_next_packet: true, ..agreed.running() }.sending(
            be16(op_code_number(OpCode::SessionResponse)) + response_body(agreed.response()),
        )
    }

    /// The session once its request was answered.
    pub open spec fn session_answered(self, body: Seq<u8>, now: Instant) -> Self {
        if self.mode == SessionMode::Server {
            self.terminated(DisconnectReason::ConnectingToSelf, false, false, now)
        } else {
            match response_of(body) {
                Err(_) => self.corrupted(now),
                Ok(response) => if self.state != SessionState::Negotiating {
                    self.terminated(DisconnectReason::ConnectError, true, false, now)
                } else if response.soe_protocol_version != SOE_PROTOCOL_VERSION {
                    self.terminated(DisconnectReason::ProtocolMismatch, true, false, now)
                } else {
                    let agreed = SessionView {
                        params: ParamsView {
                            remote_udp_length: response.udp_length,
                            crc_length: response.crc_length,
                            crc_seed: response.crc_seed,
                            is_compression_enabled: response.is_compression_enabled,
                            ..self.params
                        },
                        session_id: response.session_id,
                        ..self
                    };
                    SessionView {
                        events: self.events.push(SessionEvent::Opened),
                        ..agreed.running()
                    }
                },
            }
        }
    }

    /// The session once it has handled a packet that stands outside any session.
    #[verifier::opaque]
    pub open spec fn contextless_handled(self, op: OpCode, body: Seq<u8>, now: Instant) -> Self {
        match op {
            OpCode::SessionRequest => self.session_requested(body, now),
            OpCode::SessionResponse => self.session_answered(body, now),
            OpCode::UnknownSender => self.terminated(
                DisconnectReason::UnreachableConnection,
                false,
                false,
                now,
            ),
            _ => self,
        }
    }

    /// The session once it has handled reliable data.
    pub open spec fn reliable_handled(self, body: Seq<u8>, is_fragment: bool, now: Instant) -> Self {
        let (input, result) = self.input.handle(body, is_fragment, now);
        let next = SessionView { input, ..self };
        match result {
            Ok(_) => next,
            Err(_) => next.corrupted(now),
        }
    }

    /// The session once it has handled an acknowledgement.
    pub open spec fn acknowledgement_handled(self, body: Seq<u8>, all: bool, now: Instant) -> Self {
        match acknowledged_of(body) {
            Ok(sequence) => SessionView {
                output: if all {
                    self.output.acknowledged_all(sequence, now)
                } else {
                    self.output.acknowledged(sequence, now)
                },
                ..self
            },
            Err(_) => self,
        }
    }

    /// The session once it has handled a contextual packet that is no bundle.
    #[verifier::opaque]
    pub open spec fn single_handled(self, op: OpCode, body: Seq<u8>, now: Instant) -> Self {
        match op {
            OpCode::Disconnect => match disconnect_of(body) {
                Ok(disconnect) => self.terminated(disconnect.reason, false, true, now),
                Err(_) => self,
            },
            OpCode::Heartbeat => if self.mode == SessionMode::Server {
                self.sending(self.params.frame(OpCode::Heartbeat, Seq::empty()))
            } else {
                self
            },
            OpCode::ReliableData => self.reliable_handled(body, false, now),
            OpCode::ReliableDataFragment => self.reliable_handled(body, true, now),
            OpCode::Acknowledge => self.acknowledgement_handled(body, false, now),
            OpCode::AcknowledgeAll => self.acknowledgement_handled(body, true, now),
            _ => self,
        }
    }

    /// The session once it has handled a contextual packet.
    pub open spec fn contextual_handled(self, op: OpCode, body: Seq<u8>, now: Instant) -> Self
        decreases body.len(), 1int,
    {
        if op == OpCode::MultiPacket {
            self.bundle_handled(body, now)
        } else {
            self.single_handled(op, body, now)
        }
    }

    /// The session once it has handled a bundle of packets, each behind its length. A
    /// packet that cannot be read ends the session, and nothing is handled after one
    /// that ended it.
    pub open spec fn bundle_handled(self, rest: Seq<u8>, now: Instant) -> Self
        decreases rest.len(), 0int,
    {
        if rest.len() == 0 {
            self
        } else {
            match multi_packet::length_at_start(rest) {
                None => self.corrupted(now),
                Some((n, used)) => if n < OP_CODE_SIZE || n > rest.len() - used {
                    self.corrupted(now)
                } else {
                    let sub = rest.subrange(used as int, used + n);
                    match leading_op_code(sub) {
                        None => self.corrupted(now),
                        Some(op) => {
                            let next = self.contextual_handled(op, sub.skip(2), now);
                            if next.state == SessionState::Terminated {
                                next
                            } else {
                                next.bundle_handled(rest.skip(used + n), now)
                            }
                        },
                    }
                },
            }
        }
    }

    /// The session once it has handled what a contextual packet carries: behind a flag
    /// byte where compression is enabled, and compressed where that byte says so.
    #[verifier::opaque]
    pub open spec fn payload_handled(self, op: OpCode, body: Seq<u8>, now: Instant) -> Self {
        if !self.params.is_compression_enabled {
            self.contextual_handled(op, body, now)
        } else if body.len() == 0 {
            self
        } else if body[0] == 0 {
            self.contextual_handled(op, body.skip(1), now)
        } else {
            match inflated(body.skip(1), MAX_INFLATED_LENGTH) {
                Some(plain) => self.contextual_handled(op, plain, now),
                None => self.corrupted(now),
            }
        }
    }

    /// What is wrong with a datagram, if anything.
    pub open spec fn datagram_verdict(self, datagram: Seq<u8>) -> ValidationResult {
        verdict(
            datagram,
            self.params.crc_seed,
            self.params.crc_length,
            self.params.is_compression_enabled,
        )
    }

    /// The session once it has noted that a valid packet came in.
    pub open spec fn touched(self, now: Instant) -> Self {
        SessionView {
            events: if self.open_on_next_packet {
                self.events.push(SessionEvent::Opened)
            } else {
                self.events
            },
            open_on_next_packet: false,
            last_received: now,
            ..self
        }
    }

    /// The session once it has processed a datagram.
    pub open spec fn processed(self, datagram: Seq<u8>, now: Instant) -> Self {
        if self.state == SessionState::Terminated {
            self
        } else if self.datagram_verdict(datagram) != ValidationResult::Valid {
            self.corrupted(now)
        } else {
            let op = leading_op_code(datagram)->0;
            let touched = self.touched(now);
            (if contextless(op) {
                touched.contextless_handled(op, datagram.skip(2), now)
            } else {
                touched.payload_handled(op, framed_payload(datagram, self.params.crc_length), now)
            }).flushed()
        }
    }

    /// Whether a heartbeat is due.
    pub open spec fn heartbeat_due(self, now: Instant) -> bool {
        &&& self.mode == SessionMode::Client
        &&& self.state == SessionState::Running
        &&& self.params.heartbeat_after.nanos != 0
        &&& elapsed(now, self.last_received).nanos > self.params.heartbeat_after.nanos
    }

    /// Whether the remote has been silent for too long.
    pub open spec fn inactive(self, now: Instant) -> bool {
        &&& self.params.inactivity_timeout.nanos != 0
        &&& elapsed(now, self.last_received).nanos > self.params.inactivity_timeout.nanos
    }

    /// The session after its periodic work.
    pub open spec fn ticked(self, now: Instant) -> Self {
        if self.state == SessionState::Terminated {
            self
        } else {
            let beaten = if self.heartbeat_due(now) {
                self.sending(self.params.frame(OpCode::Heartbeat, Seq::empty()))
            } else {
                self
            };
            if self.inactive(now) {
                beaten.terminated(DisconnectReason::Timeout, false, false, now)
            } else {
                SessionView {
                    input: self.input.ticked(now),
                    output: self.output.ticked(now),
                    ..beaten
                }.flushed()
            }
        }
    }
}

/// A session that can be given any application data of some length can be given this.
pub proof fn accepted_can_be_enqueued(v: SessionView, data: Seq<u8>)
    requires
        v.accepts(data.len() as int),
    ensures
        v.can_enqueue(data),
{
}

/// Collecting what the channels want to send and have received keeps a session well
/// formed.
pub proof fn flush_keeps(v: SessionView)
    requires
        v.wf(),
    ensures
        ({
            let r = v.flushed();
            &&& r.wf()
            &&& r.input.config == v.input.config
        }),
{
    reveal(SessionView::flushed);
}

/// Terminating a session keeps it well formed, and moves no sequence.
pub proof fn terminate_keeps(
    v: SessionView,
    reason: DisconnectReason,
    notify_remote: bool,
    by_remote: bool,
    now: Instant,
)
    requires
        v.wf(),
    ensures
        ({
            let r = v.terminated(reason, notify_remote, by_remote, now);
            &&& r.wf()
            &&& r.input.config == v.input.config
            &&& r.input.window_start == v.input.window_start
            &&& r.output.max_client == v.output.max_client
            &&& r.output.total == v.output.total
            &&& r.output.config == v.output.config
            &&& r.state == SessionState::Terminated
        }),
{
    reveal(SessionView::terminated);
    reveal(SessionView::flushed);
    tick_keeps(v.output, now);
}

/// Whether `r` is a well formed session that came of `v` by taking in `n` bytes.
#[verifier::opaque]
pub open spec fn moved(v: SessionView, r: SessionView, n: int) -> bool {
    &&& r.wf()
    &&& r.input.config == v.input.config
    &&& r.output.config == v.output.config
    &&& r.output.total == v.output.total
    &&& v.input.window_start <= r.input.window_start <= v.input.window_start + (n + 1) * 0x2_0000
    &&& v.output.max_client <= r.output.max_client <= v.output.max_client + (n + 1) * 0x2_0000
    &&& r.mode == v.mode
    &&& r.params == v.params
    &&& r.session_id == v.session_id
    &&& r.state == v.state || r.state == SessionState::Terminated
}

/// Taking in some bytes and then others is taking in all of them.
proof fn moved_twice(v: SessionView, a: SessionView, b: SessionView, n: int, m: int, total: int)
    requires
        moved(v, a, n),
        moved(a, b, m),
        n + m + 1 <= total,
    ensures
        moved(v, b, total),
{
    reveal(moved);
}

/// Ending a session because of a corrupt packet takes in no bytes.
proof fn corrupt_moves(v: SessionView, now: Instant, n: int)
    requires
        v.wf(),
        0 <= n,
    ensures
        moved(v, v.corrupted(now), n),
{
    reveal(moved);
    reveal(SessionView::terminated);
    reveal(SessionView::flushed);
    terminate_keeps(v, DisconnectReason::CorruptPacket, true, false, now);
}

/// A session that has taken in bytes is well formed, and has room left for others.
pub proof fn moved_keeps(v: SessionView, r: SessionView, n: int)
    requires
        moved(v, r, n),
    ensures
        r.wf(),
        r.input.config == v.input.config,
        r.output.config == v.output.config,
        r.output.total == v.output.total,
        r.input.window_start <= v.input.window_start + (n + 1) * 0x2_0000,
        r.output.max_client <= v.output.max_client + (n + 1) * 0x2_0000,
        r.state == v.state || r.state == SessionState::Terminated,
{
    reveal(moved);
}

/// Handling a packet that is no bundle keeps a session well formed, and moves its
/// sequences by no more than the bytes of the packet allow for.
proof fn single_keeps(v: SessionView, op: OpCode, body: Seq<u8>, now: Instant)
    requires
        v.wf(),
        op != OpCode::MultiPacket,
    ensures
        moved(v, v.contextual_handled(op, body, now), body.len() as int),
{
    reveal(moved);
    reveal(SessionView::single_handled);
    reveal(SessionView::terminated);
    reveal(SessionView::flushed);
    match op {
        OpCode::Disconnect => match disconnect_of(body) {
            Ok(disconnect) => {
                terminate_keeps(v, disconnect.reason, false, true, now);
            },
            Err(_) => {},
        },
        OpCode::ReliableData | OpCode::ReliableDataFragment => {
            let is_fragment = op == OpCode::ReliableDataFragment;
            handle_keeps(v.input, body, is_fragment, now);
            let next = SessionView { input: v.input.handle(body, is_fragment, now).0, ..v };
            terminate_keeps(next, DisconnectReason::CorruptPacket, true, false, now);
        },
        OpCode::Acknowledge | OpCode::AcknowledgeAll => match acknowledged_of(body) {
            Ok(sequence) => {
                acknowledge_keeps(v.output, sequence, now);
            },
            Err(_) => {},
        },
        _ => {},
    }
}

/// Handling a contextual packet keeps a session well formed, and moves its sequences by
/// no more than the bytes of the packet allow for.
pub proof fn contextual_keeps(v: SessionView, op: OpCode, body: Seq<u8>, now: Instant)
    requires
        v.wf(),
    ensures
        moved(v, v.contextual_handled(op, body, now), body.len() as int),
    decreases body.len(), 1int,
{
    if op == OpCode::MultiPacket {
        bundle_keeps(v, body, now);
    } else {
        single_keeps(v, op, body, now);
    }
}

/// Handling a bundle of packets keeps a session well formed, and moves its sequences by
/// no more than the bytes of the bundle allow for.
pub proof fn bundle_keeps(v: SessionView, rest: Seq<u8>, now: Instant)
    requires
        v.wf(),
    ensures
        moved(v, v.bundle_handled(rest, now), rest.len() as int),
    decreases rest.len(), 0int,
{
    corrupt_moves(v, now, rest.len() as int);
    if rest.len() == 0 {
        reveal(moved);
    } else {
        match multi_packet::length_at_start(rest) {
            None => {},
            Some((n, used)) => if n < OP_CODE_SIZE || n > rest.len() - used {
            } else {
                let sub = rest.subrange(used as int, used + n);
                match leading_op_code(sub) {
                    None => {},
                    Some(op) => {
                        let next = v.contextual_handled(op, sub.skip(2), now);
                        let others = rest.skip(used + n);
                        contextual_keeps(v, op, sub.skip(2), now);
                        moved_keeps(v, next, n - 2);
                        if next.state != SessionState::Terminated {
                            let last = next.bundle_handled(others, now);
                            bundle_keeps(next, others, now);
                            moved_twice(
                                v,
                                next,
                                last,
                                n - 2,
                                others.len() as int,
                                rest.len() as int,
                            );
                        } else {
                            assert(moved(v, next, rest.len() as int)) by {
                                reveal(moved);
                            }
                        }
                    },
                }
            },
        }
    }
}

} // verus!
