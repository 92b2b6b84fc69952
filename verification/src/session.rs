//! The session handler: a state machine that drives a single session and does no I/O.
//!
//! Incoming datagrams are handed to [`SoeSession::process_incoming`]; datagrams to send
//! are taken by [`SoeSession::take_outgoing`], and application data by
//! [`SoeSession::take_received`]. The caller says what time it is.
//!
//! The handler negotiates a session by an exchange of a request and a response, then
//! hands reliable data to the input channel and acknowledgements to the output channel,
//! and deals with heartbeats and disconnects.
use bytes::Bytes;
use vstd::prelude::*;

use crate::buffer::{self, content, contents};
use crate::channel::input::{InputConfig, InputView, ReliableDataInputChannel};
use crate::channel::output::{reliable_views, OutputConfig, OutputView, ReliableDataOutputChannel};
use crate::constants::{
    CRC_LENGTH, DEFAULT_ACK_WAIT_MILLIS, DEFAULT_SESSION_HEARTBEAT_AFTER_MILLIS,
    DEFAULT_SESSION_INACTIVITY_TIMEOUT_MILLIS, DEFAULT_UDP_LENGTH, MAX_DATAGRAM_LENGTH,
    MAX_SEQUENCE, OP_CODE_SIZE, SOE_PROTOCOL_VERSION,
};
use crate::crc32::Crc32;
use crate::packet_utils::{
    crc_byte_count, frame_packet, framed_payload, read_op_code, validate_packet, ValidationResult,
};
use crate::packets::{read_acknowledged, Disconnect, SessionRequest, SessionResponse};
use crate::protocol::{DisconnectReason, OpCode};
use crate::rc4::{KeyView, Rc4KeyState};
use crate::time::{Duration, Instant};
use crate::varint::multi_packet;
use crate::wire::{be16, push_u16};
use crate::zlib;

use self::model::{
    contextual_keeps, default_params, flush_keeps, lcg_step, lcg_value, moved_keeps, terminate_keeps, ParamsView,
    SessionView,
};

pub mod behaviour;
pub mod laws;
pub mod model;
pub mod runs;
pub mod sending;

verus! {

/// The mode a session operates in.
#[derive(Debug, Clone, Copy, PartialEq, Eq, Structural)]
pub enum SessionMode {
    /// The handler initiates the session (sends the session request).
    Client,
    /// The handler accepts a session (responds to a session request).
    Server,
}

/// The lifecycle state of a session.
#[derive(Debug, Clone, Copy, PartialEq, Eq, Structural)]
pub enum SessionState {
    /// The session is being negotiated.
    Negotiating,
    /// The session is established and exchanging data.
    Running,
    /// The session has terminated.
    Terminated,
}

/// An event surfaced by a session.
#[derive(Debug, Clone, Copy, PartialEq, Eq, Structural)]
pub enum SessionEvent {
    /// The session has been established and is ready to exchange data.
    Opened,
    /// The session has terminated for the given reason.
    Closed(DisconnectReason),
}

/// Parameters controlling a session. Mutated during negotiation as the two parties
/// agree on connection details.
#[derive(Debug)]
pub struct SessionParameters {
    /// The application protocol being proxied (must match between the two parties).
    pub application_protocol: String,
    /// The maximum UDP payload length this party can receive.
    pub udp_length: u32,
    /// The maximum UDP payload length the remote party can receive.
    pub remote_udp_length: u32,
    /// The seed used to compute packet CRCs (agreed during negotiation).
    pub crc_seed: u32,
    /// The number of bytes used to store a packet CRC (0..=4).
    pub crc_length: u8,
    /// Whether contextual packets may be compressed.
    pub is_compression_enabled: bool,
    /// The maximum number of incoming reliable data packets that may be queued.
    pub max_queued_incoming_reliable: u16,
    /// The maximum number of outgoing reliable data packets in flight at once.
    pub max_queued_outgoing_reliable: u16,
    /// The acknowledgement window used by the input channel.
    pub data_ack_window: u16,
    /// The interval after which to send a heartbeat (client only). Zero disables.
    pub heartbeat_after: Duration,
    /// The interval after which to terminate an inactive session. Zero disables.
    pub inactivity_timeout: Duration,
    /// Whether every incoming reliable data packet is acknowledged individually.
    pub acknowledge_all_data: bool,
    /// The maximum delay before acknowledging incoming reliable data sequences.
    pub max_ack_delay: Duration,
}

impl View for SessionParameters {
    type V = ParamsView;

    open spec fn view(&self) -> ParamsView {
        ParamsView {
            application_protocol: self.application_protocol@,
            udp_length: self.udp_length,
            remote_udp_length: self.remote_udp_length,
            crc_seed: self.crc_seed,
            crc_length: self.crc_length,
            is_compression_enabled: self.is_compression_enabled,
            max_queued_incoming_reliable: self.max_queued_incoming_reliable,
            max_queued_outgoing_reliable: self.max_queued_outgoing_reliable,
            data_ack_window: self.data_ack_window,
            heartbeat_after: self.heartbeat_after,
            inactivity_timeout: self.inactivity_timeout,
            acknowledge_all_data: self.acknowledge_all_data,
            max_ack_delay: self.max_ack_delay,
        }
    }
}

impl Clone for SessionParameters {
    fn clone(&self) -> (r: Self)
        ensures
            r@ == self@,
    {
        SessionParameters {
            application_protocol: self.application_protocol.clone(),
            udp_length: self.udp_length,
            remote_udp_length: self.remote_udp_length,
            crc_seed: self.crc_seed,
            crc_length: self.crc_length,
            is_compression_enabled: self.is_compression_enabled,
            max_queued_incoming_reliable: self.max_queued_incoming_reliable,
            max_queued_outgoing_reliable: self.max_queued_outgoing_reliable,
            data_ack_window: self.data_ack_window,
            heartbeat_after: self.heartbeat_after,
            inactivity_timeout: self.inactivity_timeout,
            acknowledge_all_data: self.acknowledge_all_data,
            max_ack_delay: self.max_ack_delay,
        }
    }
}

impl Default for SessionParameters {
    fn default() -> (r: Self)
        ensures
            r@ == default_params(),
    {
        SessionParameters {
            application_protocol: String::new(),
            udp_length: DEFAULT_UDP_LENGTH,
            remote_udp_length: DEFAULT_UDP_LENGTH,
            crc_seed: 0,
            crc_length: CRC_LENGTH,
            is_compression_enabled: false,
            max_queued_incoming_reliable: 256,
            max_queued_outgoing_reliable: 196,
            data_ack_window: 32,
            heartbeat_after: Duration::from_millis(DEFAULT_SESSION_HEARTBEAT_AFTER_MILLIS),
            inactivity_timeout: Duration::from_millis(DEFAULT_SESSION_INACTIVITY_TIMEOUT_MILLIS),
            acknowledge_all_data: false,
            max_ack_delay: Duration::from_millis(2),
        }
    }
}

/// Application-level parameters: the optional encryption key state.
#[derive(Debug)]
pub struct ApplicationParameters {
    /// The RC4 key state used to (en/de)crypt application data, if encryption is
    /// enabled.
    pub encryption_key_state: Option<Rc4KeyState>,
}

impl View for ApplicationParameters {
    type V = Option<KeyView>;

    open spec fn view(&self) -> Option<KeyView> {
        match self.encryption_key_state {
            Some(key) => Some(key@),
            None => None,
        }
    }
}

impl Clone for ApplicationParameters {
    fn clone(&self) -> (r: Self)
        ensures
            r@ == self@,
    {
        ApplicationParameters {
            encryption_key_state: match &self.encryption_key_state {
                Some(key) => Some(key.clone()),
                None => None,
            },
        }
    }
}

impl Default for ApplicationParameters {
    fn default() -> (r: Self)
        ensures
            r@ is None,
    {
        ApplicationParameters { encryption_key_state: None }
    }
}

/// A small linear-congruential generator used to produce session IDs and CRC seeds.
#[derive(Debug)]
pub struct Lcg {
    state: u64,
}

impl View for Lcg {
    type V = u64;

    closed spec fn view(&self) -> u64 {
        self.state
    }
}

impl Lcg {
    /// A generator that starts from `seed`.
    pub fn new(seed: u64) -> (r: Lcg)
        ensures
            r@ == seed ^ 0x9E37_79B9_7F4A_7C15,
    {
        Lcg { state: seed ^ 0x9E37_79B9_7F4A_7C15 }
    }

    /// The next number: the high half of the next state.
    pub fn next_u32(&mut self) -> (n: u32)
        ensures
            final(self)@ == lcg_step(old(self)@),
            n == lcg_value(final(self)@),
    {
        self.state = self.state.wrapping_mul(6_364_136_223_846_793_005).wrapping_add(
            1_442_695_040_888_963_407,
        );
        (self.state >> 32) as u32
    }
}

/// A handler for a single session, which does no I/O.
pub struct SoeSession {
    mode: SessionMode,
    state: SessionState,
    params: SessionParameters,
    input: ReliableDataInputChannel,
    output: ReliableDataOutputChannel,
    session_id: u32,
    termination_reason: DisconnectReason,
    terminated_by_remote: bool,
    open_session_on_next_packet: bool,
    last_received: Instant,
    rng: Lcg,
    outgoing: Vec<Bytes>,
    received: Vec<Bytes>,
    events: Vec<SessionEvent>,
}

impl View for SoeSession {
    type V = SessionView;

    closed spec fn view(&self) -> SessionView {
        SessionView {
            mode: self.mode,
            state: self.state,
            params: self.params@,
            input: self.input@,
            output: self.output@,
            session_id: self.session_id,
            termination_reason: self.termination_reason,
            terminated_by_remote: self.terminated_by_remote,
            open_on_next_packet: self.open_session_on_next_packet,
            last_received: self.last_received,
            rng: self.rng@,
            outgoing: contents(self.outgoing@),
            received: contents(self.received@),
            events: self.events@,
        }
    }
}

impl SoeSession {
    /// Creates a new session handler in the [`SessionState::Negotiating`] state.
    ///
    /// `rng_seed` seeds the generator used for the session ID (client) and CRC seed
    /// (server); pass a fixed value for deterministic behaviour, or entropy for real
    /// sessions.
    pub fn new(
        mode: SessionMode,
        params: SessionParameters,
        app: ApplicationParameters,
        rng_seed: u64,
        now: Instant,
    ) -> (r: Self)
        ensures
            r@ == SessionView::initial(mode, params@, app@, rng_seed, now),
            r@.wf(),
    {
        let ghost cipher = app@;
        let copy = app.clone();
        let input = ReliableDataInputChannel::new(
            InputConfig {
                max_queued_incoming: params.max_queued_incoming_reliable,
                acknowledge_all_data: params.acknowledge_all_data,
                data_ack_window: params.data_ack_window,
                max_ack_delay: params.max_ack_delay,
            },
            copy.encryption_key_state,
            now,
        );
        let output = ReliableDataOutputChannel::new(
            OutputConfig {
                max_data_length: Self::max_data_length(&params),
                max_queued_outgoing: params.max_queued_outgoing_reliable as usize,
                ack_wait: Duration::from_millis(DEFAULT_ACK_WAIT_MILLIS),
            },
            app.encryption_key_state,
            now,
        );
        let r = SoeSession {
            mode,
            state: SessionState::Negotiating,
            params,
            input,
            output,
            session_id: 0,
            termination_reason: DisconnectReason::Unspecified,
            terminated_by_remote: false,
            open_session_on_next_packet: false,
            last_received: now,
            rng: Lcg::new(rng_seed),
            outgoing: Vec::new(),
            received: Vec::new(),
            events: Vec::new(),
        };
        proof {
            let target = SessionView::initial(mode, params@, cipher, rng_seed, now);
            assert(r@.outgoing =~= target.outgoing);
            assert(r@.received =~= target.received);
            assert(r@.input =~= target.input);
            assert(r@.output =~= target.output);
        }
        r
    }

    /// Returns the current session state.
    pub fn state(&self) -> (r: SessionState)
        ensures
            r == self@.state,
    {
        self.state
    }

    /// Returns the session mode.
    pub fn mode(&self) -> (r: SessionMode)
        ensures
            r == self@.mode,
    {
        self.mode
    }

    /// Returns the negotiated session ID.
    pub fn session_id(&self) -> (r: u32)
        ensures
            r == self@.session_id,
    {
        self.session_id
    }

    /// Returns the negotiated CRC seed (meaningful once running).
    pub fn crc_seed(&self) -> (r: u32)
        ensures
            r == self@.params.crc_seed,
    {
        self.params.crc_seed
    }

    /// Returns the reason the session terminated (meaningful once terminated).
    pub fn termination_reason(&self) -> (r: DisconnectReason)
        ensures
            r == self@.termination_reason,
    {
        self.termination_reason
    }

    /// Returns whether the termination was initiated by the remote party.
    pub fn terminated_by_remote(&self) -> (r: bool)
        ensures
            r == self@.terminated_by_remote,
    {
        self.terminated_by_remote
    }

    /// The channel for reliable data from the remote.
    pub fn input(&self) -> (r: &ReliableDataInputChannel)
        ensures
            r@ == self@.input,
    {
        &self.input
    }

    /// The channel for reliable data to the remote.
    pub fn output(&self) -> (r: &ReliableDataOutputChannel)
        ensures
            r@ == self@.output,
    {
        &self.output
    }

    /// Whether the session can take in a datagram.
    pub fn is_ready(&self, datagram: &Bytes) -> (r: bool)
        ensures
            r == self@.ready(content(*datagram)),
    {
        buffer::as_slice(datagram).len() <= MAX_DATAGRAM_LENGTH && self.input.window_start()
            <= MAX_SEQUENCE && self.output.max_client_sequence() <= MAX_SEQUENCE
    }

    /// Whether the session can be given any application data of `len` bytes to send. A
    /// session that is not running can: it drops it.
    pub fn accepts(&self, len: usize) -> (r: bool)
        ensures
            r == self@.accepts(len as int),
    {
        if self.state != SessionState::Running {
            return true;
        }
        let max: usize = self.output.config().max_data_length;
        let limit: usize = buffer::max_buffer_length();
        len <= limit - 7 && (max >= 6 || len + 3 <= max) && self.output.total_sequence()
            <= MAX_SEQUENCE
    }

    /// Drains datagrams that the caller should send to the remote.
    pub fn take_outgoing(&mut self) -> (out: Vec<Bytes>)
        ensures
            contents(out@) == old(self)@.outgoing,
            final(self)@ == (SessionView { outgoing: Seq::empty(), ..old(self)@ }),
    {
        let mut out: Vec<Bytes> = Vec::new();
        core::mem::swap(&mut out, &mut self.outgoing);
        assert(self@.outgoing =~= Seq::<Seq<u8>>::empty());
        out
    }

    /// Drains application data received from the remote.
    pub fn take_received(&mut self) -> (out: Vec<Bytes>)
        ensures
            contents(out@) == old(self)@.received,
            final(self)@ == (SessionView { received: Seq::empty(), ..old(self)@ }),
    {
        let mut out: Vec<Bytes> = Vec::new();
        core::mem::swap(&mut out, &mut self.received);
        assert(self@.received =~= Seq::<Seq<u8>>::empty());
        out
    }

    /// Drains session lifecycle events.
    pub fn take_events(&mut self) -> (out: Vec<SessionEvent>)
        ensures
            out@ == old(self)@.events,
            final(self)@ == (SessionView { events: Seq::empty(), ..old(self)@ }),
    {
        let mut out: Vec<SessionEvent> = Vec::new();
        core::mem::swap(&mut out, &mut self.events);
        out
    }

    fn max_data_length(params: &SessionParameters) -> (n: usize)
        ensures
            n == params@.max_data_length(),
    {
        let flag: u32 = if params.is_compression_enabled {
            1
        } else {
            0
        };
        let overhead: u32 = OP_CODE_SIZE as u32 + flag + params.crc_length as u32;
        if params.remote_udp_length < overhead {
            0
        } else {
            (params.remote_udp_length - overhead) as usize
        }
    }

    /// Sends a session request to begin negotiation. Only valid in client mode while
    /// negotiating.
    pub fn send_session_request(&mut self)
        ensures
            final(self)@ == old(self)@.requested(),
    {
        if self.state != SessionState::Negotiating || self.mode != SessionMode::Client {
            return;
        }
        let id: u32 = self.rng.next_u32();
        self.session_id = id;
        let request = SessionRequest {
            soe_protocol_version: SOE_PROTOCOL_VERSION,
            session_id: id,
            udp_length: self.params.udp_length,
            application_protocol: self.params.application_protocol.clone(),
        };
        self.send(buffer::from_vec(request.serialize()));
    }

    /// Adds a datagram to send.
    fn send(&mut self, datagram: Bytes)
        ensures
            final(self)@ == old(self)@.sending(content(datagram)),
    {
        let ghost before = self@.outgoing;
        self.outgoing.push(datagram);
        assert(self@.outgoing =~= before.push(content(datagram)));
    }

    /// Enqueues application data to be sent reliably. Returns `false` if the session
    /// is not running.
    ///
    /// A remote that accepts only very short datagrams, as it says in its part of the
    /// handshake, cannot be sent the data: ask [`accepts`](SoeSession::accepts) first.
    #[must_use]
    pub fn enqueue_data(&mut self, data: &[u8]) -> (r: bool)
        requires
            old(self)@.wf(),
            old(self)@.can_enqueue(data@),
        ensures
            final(self)@ == old(self)@.enqueued(data@),
            final(self)@.wf(),
            r == (old(self)@.state == SessionState::Running),
    {
        if self.state != SessionState::Running {
            return false;
        }
        self.output.enqueue_data(data);
        true
    }

    /// Terminates the session, optionally notifying the remote.
    pub fn terminate(&mut self, reason: DisconnectReason, notify_remote: bool, now: Instant)
        requires
            old(self)@.wf(),
        ensures
            final(self)@ == old(self)@.terminated(reason, notify_remote, false, now),
            final(self)@.wf(),
    {
        self.terminate_inner(reason, notify_remote, false, now);
    }

    /// Processes a single incoming datagram from the remote.
    pub fn process_incoming(&mut self, datagram: Bytes, now: Instant)
        requires
            old(self)@.wf(),
            old(self)@.ready(content(datagram)),
        ensures
            final(self)@ == old(self)@.processed(content(datagram), now),
            final(self)@.wf(),
            final(self)@.input.config == old(self)@.input.config,
    {
        if self.state == SessionState::Terminated {
            return;
        }
        let crc = Crc32::new(self.params.crc_seed);
        let (result, op) = validate_packet(
            buffer::as_slice(&datagram),
            &crc,
            self.params.crc_length,
            self.params.is_compression_enabled,
        );
        if result != ValidationResult::Valid {
            self.terminate_inner(DisconnectReason::CorruptPacket, true, false, now);
            return;
        }
        let op = match op {
            Some(op) => op,
            None => {
                return;
            },
        };
        if self.open_session_on_next_packet {
            self.events.push(SessionEvent::Opened);
            self.open_session_on_next_packet = false;
        }
        // Set after validation, as a primitive guard against a stream of corrupt
        // packets keeping a session alive.

        self.last_received = now;
        assert(self@ == old(self)@.touched(now));

        let len: usize = buffer::as_slice(&datagram).len();
        if op.is_contextless() {
            let body = buffer::slice(&datagram, OP_CODE_SIZE, len);
            assert(content(body) =~= content(datagram).skip(2));
            self.handle_contextless(op, buffer::as_slice(&body), now);
        } else {
            let end: usize = len - crc_byte_count(self.params.crc_length);
            let body = buffer::slice(&datagram, OP_CODE_SIZE, end);
            assert(content(body) =~= framed_payload(content(datagram), self@.params.crc_length));
            self.handle_contextual(op, body, now);
        }
        proof {
            flush_keeps(self@);
        }
        self.flush_channels();
    }

    /// Runs a single tick of the session: heartbeats, inactivity timeout, and the
    /// reliable data channels.
    pub fn run_tick(&mut self, now: Instant)
        requires
            old(self)@.wf(),
        ensures
            final(self)@ == old(self)@.ticked(now),
            final(self)@.wf(),
            final(self)@.input.config == old(self)@.input.config,
    {
        if self.state == SessionState::Terminated {
            return;
        }
        self.send_heartbeat_if_required(now);
        let silent = now.duration_since(self.last_received);
        if !self.params.inactivity_timeout.is_zero() && silent.exceeds(
            &self.params.inactivity_timeout,
        ) {
            self.terminate_inner(DisconnectReason::Timeout, false, false, now);
            return;
        }
        self.input.run_tick(now);
        self.output.run_tick(now);
        proof {
            flush_keeps(self@);
        }
        self.flush_channels();
    }

    fn handle_contextless(&mut self, op: OpCode, body: &[u8], now: Instant)
        requires
            old(self)@.wf(),
        ensures
            final(self)@ == old(self)@.contextless_handled(op, body@, now),
            final(self)@.wf(),
            final(self)@.input.config == old(self)@.input.config,
    {
        reveal(SessionView::contextless_handled);
        match op {
            OpCode::SessionRequest => self.handle_session_request(body, now),
            OpCode::SessionResponse => self.handle_session_response(body, now),
            OpCode::UnknownSender => {
                self.terminate_inner(DisconnectReason::UnreachableConnection, false, false, now);
            },
            // Remap requests are the responsibility of a connection manager.
            _ => {},
        }
    }

    fn handle_session_request(&mut self, body: &[u8], now: Instant)
        requires
            old(self)@.wf(),
        ensures
            final(self)@ == old(self)@.session_requested(body@, now),
            final(self)@.wf(),
            final(self)@.input.config == old(self)@.input.config,
    {
        if self.mode == SessionMode::Client {
            self.terminate_inner(DisconnectReason::ConnectingToSelf, false, false, now);
            return;
        }
        let request = match SessionRequest::deserialize(body) {
            Ok(request) => request,
            Err(_) => {
                self.terminate_inner(DisconnectReason::CorruptPacket, true, false, now);
                return;
            },
        };
        self.params.remote_udp_length = request.udp_length;
        self.session_id = request.session_id;
        if self.state != SessionState::Negotiating {
            self.terminate_inner(DisconnectReason::ConnectError, true, false, now);
            return;
        }
        let protocols_match = request.soe_protocol_version == SOE_PROTOCOL_VERSION
            && request.application_protocol == self.params.application_protocol;
        if !protocols_match {
            self.terminate_inner(DisconnectReason::ProtocolMismatch, true, false, now);
            return;
        }
        let ghost known = self@;
        self.params.crc_length = CRC_LENGTH;
        self.params.crc_seed = self.rng.next_u32();
        self.output.set_max_data_length(Self::max_data_length(&self.params));
        let response = SessionResponse {
            session_id: self.session_id,
            crc_seed: self.params.crc_seed,
            crc_length: self.params.crc_length,
            is_compression_enabled: self.params.is_compression_enabled,
            unknown_value_1: 0,
            udp_length: self.params.udp_length,
            soe_protocol_version: SOE_PROTOCOL_VERSION,
        };
        self.send(buffer::from_vec(response.serialize()));
        self.state = SessionState::Running;
        self.open_session_on_next_packet = true;
        assert(self@ =~= known.granted());
    }

    fn handle_session_response(&mut self, body: &[u8], now: Instant)
        requires
            old(self)@.wf(),
        ensures
            final(self)@ == old(self)@.session_answered(body@, now),
            final(self)@.wf(),
            final(self)@.input.config == old(self)@.input.config,
    {
        if self.mode == SessionMode::Server {
            self.terminate_inner(DisconnectReason::ConnectingToSelf, false, false, now);
            return;
        }
        let response = match SessionResponse::deserialize(body) {
            Ok(response) => response,
            Err(_) => {
                self.terminate_inner(DisconnectReason::CorruptPacket, true, false, now);
                return;
            },
        };
        if self.state != SessionState::Negotiating {
            self.terminate_inner(DisconnectReason::ConnectError, true, false, now);
            return;
        }
        if response.soe_protocol_version != SOE_PROTOCOL_VERSION {
            self.terminate_inner(DisconnectReason::ProtocolMismatch, true, false, now);
            return;
        }
        self.params.remote_udp_length = response.udp_length;
        self.params.crc_length = response.crc_length;
        self.params.crc_seed = response.crc_seed;
        self.params.is_compression_enabled = response.is_compression_enabled;
        self.session_id = response.session_id;
        self.output.set_max_data_length(Self::max_data_length(&self.params));
        self.state = SessionState::Running;
        self.events.push(SessionEvent::Opened);
    }

    fn handle_contextual(&mut self, op: OpCode, body: Bytes, now: Instant)
        requires
            old(self)@.wf(),
            old(self)@.input.window_start <= MAX_SEQUENCE,
            old(self)@.output.max_client <= MAX_SEQUENCE,
            content(body).len() <= MAX_DATAGRAM_LENGTH,
        ensures
            final(self)@ == old(self)@.payload_handled(op, content(body), now),
            final(self)@.wf(),
            final(self)@.input.config == old(self)@.input.config,
    {
        reveal(SessionView::payload_handled);
        let body = if self.params.is_compression_enabled {
            let bytes = buffer::as_slice(&body);
            if bytes.len() == 0 {
                return;
            }
            let is_compressed = bytes[0] > 0;
            let rest = buffer::slice(&body, 1, bytes.len());
            assert(content(rest) =~= content(body).skip(1));
            if is_compressed {
                match zlib::inflate(buffer::as_slice(&rest)) {
                    Ok(d) => buffer::from_vec(d),
                    Err(_) => {
                        self.terminate_inner(DisconnectReason::CorruptPacket, true, false, now);
                        return;
                    },
                }
            } else {
                rest
            }
        } else {
            body
        };
        self.handle_contextual_inner(op, body, now);
    }

    /// Handles a contextual packet, which was decompressed already.
    pub fn handle_contextual_inner(&mut self, op: OpCode, body: Bytes, now: Instant)
        requires
            old(self)@.wf(),
            old(self)@.roomy(content(body).len() as int),
        ensures
            final(self)@ == old(self)@.contextual_handled(op, content(body), now),
            final(self)@.wf(),
            final(self)@.input.config == old(self)@.input.config,
        decreases content(body).len(), 1int,
    {
        proof {
            reveal(SessionView::single_handled);
            contextual_keeps(self@, op, content(body), now);
            moved_keeps(
                self@,
                self@.contextual_handled(op, content(body), now),
                content(body).len() as int,
            );
        }
        match op {
            OpCode::MultiPacket => {
                self.handle_bundle(&body, now);
            },
            OpCode::Disconnect => {
                if let Ok(disconnect) = Disconnect::deserialize(buffer::as_slice(&body)) {
                    self.terminate_inner(disconnect.reason, false, true, now);
                }
            },
            OpCode::Heartbeat => {
                if self.mode == SessionMode::Server {
                    let dg = self.frame_contextual(OpCode::Heartbeat, &[]);
                    self.send(dg);
                    assert(self@.outgoing.last() =~= old(self)@.params.frame(
                        OpCode::Heartbeat,
                        Seq::empty(),
                    ));
                }
            },
            OpCode::ReliableData => {
                let outcome = self.input.handle_reliable_data(body, now);
                if outcome.is_err() {
                    self.terminate_inner(DisconnectReason::CorruptPacket, true, false, now);
                }
            },
            OpCode::ReliableDataFragment => {
                let outcome = self.input.handle_reliable_data_fragment(body, now);
                if outcome.is_err() {
                    self.terminate_inner(DisconnectReason::CorruptPacket, true, false, now);
                }
            },
            OpCode::Acknowledge => {
                if let Ok(sequence) = read_acknowledged(buffer::as_slice(&body)) {
                    self.output.notify_of_acknowledge(sequence, now);
                }
            },
            OpCode::AcknowledgeAll => {
                if let Ok(sequence) = read_acknowledged(buffer::as_slice(&body)) {
                    self.output.notify_of_acknowledge_all(sequence, now);
                }
            },
            _ => {},
        }
    }

    /// Handles the packets of a bundle, one after the other.
    #[verifier::rlimit(40)]
    fn handle_bundle(&mut self, body: &Bytes, now: Instant)
        requires
            old(self)@.wf(),
            old(self)@.roomy(content(*body).len() as int),
        ensures
            final(self)@ == old(self)@.bundle_handled(content(*body), now),
        decreases content(*body).len(), 0int,
    {
        let bytes = buffer::as_slice(body);
        let ghost whole = content(*body);
        let mut offset: usize = 0;
        assert(whole.skip(0) =~= whole);
        while offset < bytes.len()
            invariant
                bytes@ == whole,
                whole == content(*body),
                offset <= whole.len(),
                self@.wf(),
                self@.roomy(whole.len() - offset),
                self@.bundle_handled(whole.skip(offset as int), now) == old(self)@.bundle_handled(
                    whole,
                    now,
                ),
            decreases whole.len() - offset,
        {
            let ghost rest = whole.skip(offset as int);
            let (len, start) = match multi_packet::read(bytes, offset) {
                Ok((len, start)) => (len as usize, start),
                Err(_) => {
                    self.terminate_inner(DisconnectReason::CorruptPacket, true, false, now);
                    return;
                },
            };
            if len < OP_CODE_SIZE || len > bytes.len() - start {
                self.terminate_inner(DisconnectReason::CorruptPacket, true, false, now);
                return;
            }
            let sub = buffer::slice(body, start, start + len);
            assert(content(sub) =~= rest.subrange(start - offset, start - offset + len));
            let sub_op = match read_op_code(buffer::as_slice(&sub)) {
                Some(sub_op) => sub_op,
                None => {
                    self.terminate_inner(DisconnectReason::CorruptPacket, true, false, now);
                    return;
                },
            };
            let sub_body = buffer::slice(&sub, OP_CODE_SIZE, len);
            proof {
                assert(content(sub_body) =~= content(sub).skip(2));
                assert(rest.skip(start - offset + len) =~= whole.skip(start + len));
                contextual_keeps(self@, sub_op, content(sub_body), now);
                moved_keeps(
                    self@,
                    self@.contextual_handled(sub_op, content(sub_body), now),
                    content(sub_body).len() as int,
                );
            }
            self.handle_contextual_inner(sub_op, sub_body, now);
            offset = start + len;

            // A sub-packet may have terminated the session (e.g. a corrupt fragment or
            // an embedded Disconnect). Stop draining the bundle rather than processing
            // data on a dead session.
            if self.state == SessionState::Terminated {
                return;
            }
        }
    }

    fn send_heartbeat_if_required(&mut self, now: Instant)
        requires
            old(self)@.wf(),
        ensures
            final(self)@ == (if old(self)@.heartbeat_due(now) {
                old(self)@.sending(old(self)@.params.frame(OpCode::Heartbeat, Seq::empty()))
            } else {
                old(self)@
            }),
    {
        let silent = now.duration_since(self.last_received);
        let may_send = self.mode == SessionMode::Client && self.state == SessionState::Running
            && !self.params.heartbeat_after.is_zero() && silent.exceeds(
            &self.params.heartbeat_after,
        );
        if may_send {
            let dg = self.frame_contextual(OpCode::Heartbeat, &[]);
            self.send(dg);
        }
    }

    fn flush_channels(&mut self)
        requires
            old(self)@.wf(),
        ensures
            final(self)@ == old(self)@.flushed(),
    {
        reveal(SessionView::flushed);
        let ghost v = self@;
        let acks = self.input.take_outgoing();
        let mut k: usize = 0;
        while k < acks.len()
            invariant
                k <= acks@.len(),
                acks@ == v.input.outgoing,
                v.wf(),
                self@ == (SessionView {
                    input: InputView { outgoing: Seq::empty(), ..v.input },
                    outgoing: v.outgoing + v.framed_acks().take(k as int),
                    ..v
                }),
            decreases acks@.len() - k,
        {
            let mut payload: Vec<u8> = Vec::new();
            push_u16(&mut payload, acks[k].sequence);
            assert(payload@ =~= be16(acks@[k as int].sequence));
            let dg = self.frame_contextual(acks[k].op_code, payload.as_slice());
            self.send(dg);
            k = k + 1;
            assert(self@.outgoing =~= v.outgoing + v.framed_acks().take(k as int));
        }
        assert(v.framed_acks().take(k as int) =~= v.framed_acks());

        let packets = self.output.take_outgoing();
        let mut k: usize = 0;
        while k < packets.len()
            invariant
                k <= packets@.len(),
                reliable_views(packets@) == v.output.outgoing,
                v.wf(),
                self@ == (SessionView {
                    input: InputView { outgoing: Seq::empty(), ..v.input },
                    output: OutputView { outgoing: Seq::empty(), ..v.output },
                    outgoing: v.outgoing + v.framed_acks() + v.framed_packets().take(k as int),
                    ..v
                }),
            decreases packets@.len() - k,
        {
            assert(v.output.outgoing[k as int] == packets@[k as int]@);
            let dg = self.frame_contextual(
                packets[k].op_code,
                buffer::as_slice(&packets[k].payload),
            );
            self.send(dg);
            k = k + 1;
            assert(self@.outgoing =~= v.outgoing + v.framed_acks() + v.framed_packets().take(
                k as int,
            ));
        }
        assert(v.framed_packets().take(k as int) =~= v.framed_packets());

        // No data comes out of a session before it has opened.
        if self.state == SessionState::Running && !self.open_session_on_next_packet {
            let mut app_data = self.input.take_app_data();
            let ghost added = app_data@;
            let ghost before = self.received@;
            self.received.append(&mut app_data);
            assert(contents(self.received@) =~= contents(before) + contents(added));
        }
    }

    /// Frames a contextual packet: OP code, optional compression flag, payload, and
    /// CRC.
    fn frame_contextual(&self, op: OpCode, payload: &[u8]) -> (r: Bytes)
        ensures
            content(r) == self@.params.frame(op, payload@),
    {
        let crc = Crc32::new(self.params.crc_seed);
        buffer::from_vec(
            frame_packet(
                op,
                payload,
                &crc,
                self.params.crc_length,
                self.params.is_compression_enabled,
            ),
        )
    }

    fn terminate_inner(
        &mut self,
        reason: DisconnectReason,
        notify_remote: bool,
        terminated_by_remote: bool,
        now: Instant,
    )
        requires
            old(self)@.wf(),
        ensures
            final(self)@ == old(self)@.terminated(
                reason,
                notify_remote,
                terminated_by_remote,
                now,
            ),
            final(self)@.wf(),
            final(self)@.input.config == old(self)@.input.config,
    {
        proof {
            reveal(SessionView::terminated);
            terminate_keeps(self@, reason, notify_remote, terminated_by_remote, now);
        }
        if self.state == SessionState::Terminated {
            return;
        }
        // Naive flush of the output channel.

        self.output.run_tick(now);
        reveal(SessionView::flushed);
        self.flush_channels();
        self.termination_reason = reason;
        if notify_remote && self.state == SessionState::Running {
            let disconnect = Disconnect { session_id: self.session_id, reason };
            let payload = disconnect.serialize();
            let dg = self.frame_contextual(OpCode::Disconnect, payload.as_slice());
            self.send(dg);
        }
        self.state = SessionState::Terminated;
        self.terminated_by_remote = terminated_by_remote;
        self.events.push(SessionEvent::Closed(reason));
    }
}

} // verus!
