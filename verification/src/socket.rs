//! The socket handler: many sessions over a single UDP socket, without I/O.
//!
//! [`SoeMultiplexer`] owns no socket. Incoming datagrams are handed to it with the
//! address they came from; datagrams to send are taken from it with the address they go
//! to, and so are session lifecycle and data events. The caller says what time it is.
//!
//! The multiplexer is generic over the address type, so that it depends on no particular
//! socket.
use std::hash::Hash;

use bytes::Bytes;
use vstd::prelude::*;
use vstd::std_specs::cmp::PartialEqSpec;

use crate::buffer::{self, content, contents};
use crate::constants::MAX_DATAGRAM_LENGTH;
use crate::packet_utils::read_op_code;
use crate::packets::RemapConnection;
use crate::protocol::{DisconnectReason, OpCode};
use crate::session::model::{default_params, SessionView};
use crate::session::{
    ApplicationParameters, SessionEvent, SessionMode, SessionParameters, SessionState, SoeSession,
};
use crate::time::Instant;

use self::model::{
    alive, arrivals, closings, distinct, drained, holder, openings, place_found, place_missing,
    place_of, push_keeps_distinct, remove_keeps_distinct, settle_keeps, settle_stored, surfaced,
    tagged, ConfigView, MuxView, SocketEventView,
};

pub mod address;
pub mod behaviour;
pub mod laws;
pub mod model;

verus! {

/// An address that can key a session in a multiplexer.
///
/// The [`same_host`](RemoteAddr::same_host) method lets the multiplexer honour the
/// port-remap security rule (only the port of an established session may change, never
/// the host) without hard-coding a concrete address type.
pub trait RemoteAddr: Clone + Eq + Hash {
    /// Whether `self` and `other` refer to the same host, ignoring any port component.
    spec fn is_same_host(&self, other: &Self) -> bool;

    /// Returns whether `self` and `other` refer to the same host, ignoring any port
    /// component. Used to guard port remaps against session hijacking.
    fn same_host(&self, other: &Self) -> (r: bool)
        ensures
            r == self.is_same_host(other),
    ;
}

/// Whether addresses can key sessions: `==` tells addresses apart, and a clone is equal
/// to what it was cloned from.
pub open spec fn lawful<A: RemoteAddr>() -> bool {
    &&& A::obeys_eq_spec()
    &&& forall|a: A, b: A| #[trigger] a.eq_spec(&b) <==> a == b
    &&& forall|a: A, b: A| #[trigger] cloned(a, b) ==> a == b
}

/// Options controlling a [`SoeMultiplexer`].
#[derive(Debug)]
pub struct SocketConfig {
    /// The session parameters used when creating new sessions.
    pub default_session_params: SessionParameters,
    /// The application parameters (e.g. encryption key) cloned into each session.
    pub app_params: ApplicationParameters,
    /// Whether established sessions are permitted to remap to a new port.
    pub allow_port_remaps: bool,
    /// The base seed used to derive each new session's RNG seed. Successive sessions
    /// receive successive seeds, keeping behaviour deterministic for a given base.
    pub base_rng_seed: u64,
}

impl View for SocketConfig {
    type V = ConfigView;

    open spec fn view(&self) -> ConfigView {
        ConfigView {
            params: self.default_session_params@,
            cipher: self.app_params@,
            allow_port_remaps: self.allow_port_remaps,
            base_rng_seed: self.base_rng_seed,
        }
    }
}

impl Clone for SocketConfig {
    fn clone(&self) -> (r: Self)
        ensures
            r@ == self@,
    {
        SocketConfig {
            default_session_params: self.default_session_params.clone(),
            app_params: self.app_params.clone(),
            allow_port_remaps: self.allow_port_remaps,
            base_rng_seed: self.base_rng_seed,
        }
    }
}

impl Default for SocketConfig {
    fn default() -> (r: Self)
        ensures
            r@ == (ConfigView {
                params: default_params(),
                cipher: None,
                allow_port_remaps: false,
                base_rng_seed: 0,
            }),
    {
        SocketConfig {
            default_session_params: SessionParameters::default(),
            app_params: ApplicationParameters::default(),
            allow_port_remaps: false,
            base_rng_seed: 0,
        }
    }
}

/// An event surfaced by a [`SoeMultiplexer`], tagged with the remote it concerns.
#[derive(Debug, PartialEq, Eq)]
pub enum SocketEvent<A> {
    /// A session with `remote` has been established.
    SessionOpened {
        /// The remote address of the opened session.
        remote: A,
    },
    /// Application data was received from `remote`.
    DataReceived {
        /// The remote address the data came from.
        remote: A,
        /// The received application data.
        data: Bytes,
    },
    /// A session with `remote` has terminated for the given reason.
    SessionClosed {
        /// The remote address of the closed session.
        remote: A,
        /// The reason the session terminated.
        reason: DisconnectReason,
    },
}

impl<A: Clone> Clone for SocketEvent<A> {
    fn clone(&self) -> (r: Self)
        ensures
            match (*self, r) {
                (SocketEvent::SessionOpened { remote: a }, SocketEvent::SessionOpened {
                    remote: b,
                }) => cloned(a, b),
                (SocketEvent::DataReceived { remote: a, data: c }, SocketEvent::DataReceived {
                    remote: b,
                    data: d,
                }) => cloned(a, b) && content(c) == content(d),
                (SocketEvent::SessionClosed { remote: a, reason: c }, SocketEvent::SessionClosed {
                    remote: b,
                    reason: d,
                }) => cloned(a, b) && c == d,
                _ => false,
            },
    {
        match self {
            SocketEvent::SessionOpened { remote } => SocketEvent::SessionOpened {
                remote: remote.clone(),
            },
            SocketEvent::DataReceived { remote, data } => SocketEvent::DataReceived {
                remote: remote.clone(),
                data: data.clone(),
            },
            SocketEvent::SessionClosed { remote, reason } => SocketEvent::SessionClosed {
                remote: remote.clone(),
                reason: *reason,
            },
        }
    }
}

impl<A> View for SocketEvent<A> {
    type V = SocketEventView<A>;

    open spec fn view(&self) -> SocketEventView<A> {
        match *self {
            SocketEvent::SessionOpened { remote } => SocketEventView::SessionOpened { remote },
            SocketEvent::DataReceived { remote, data } => SocketEventView::DataReceived {
                remote,
                data: content(data),
            },
            SocketEvent::SessionClosed { remote, reason } => SocketEventView::SessionClosed {
                remote,
                reason,
            },
        }
    }
}

/// Events, by the bytes they hold.
pub open spec fn event_views<A>(events: Seq<SocketEvent<A>>) -> Seq<SocketEventView<A>> {
    Seq::new(events.len(), |k: int| events[k]@)
}

/// Datagrams with where they are to go, by the bytes they hold.
pub open spec fn datagram_views<A>(datagrams: Seq<(A, Bytes)>) -> Seq<(A, Seq<u8>)> {
    Seq::new(datagrams.len(), |k: int| (datagrams[k].0, content(datagrams[k].1)))
}

/// A multiplexer of sessions, keyed by remote address, which does no I/O.
///
/// The sessions stand in a vector, no two under the same address, and are looked up one by
/// one. What a hash map holds is only known of keys whose hash is, which cannot be shown of
/// an address type that callers bring.
pub struct SoeMultiplexer<A: RemoteAddr> {
    config: SocketConfig,
    sessions: Vec<(A, SoeSession)>,
    outgoing: Vec<(A, Bytes)>,
    events: Vec<SocketEvent<A>>,
    next_seed: u64,
}

/// What sessions hold.
closed spec fn session_views<A>(sessions: Seq<(A, SoeSession)>) -> Seq<(A, SessionView)> {
    Seq::new(sessions.len(), |k: int| (sessions[k].0, sessions[k].1@))
}

impl<A: RemoteAddr> View for SoeMultiplexer<A> {
    type V = MuxView<A>;

    closed spec fn view(&self) -> MuxView<A> {
        MuxView {
            config: self.config@,
            sessions: session_views(self.sessions@),
            outgoing: datagram_views(self.outgoing@),
            events: event_views(self.events@),
            next_seed: self.next_seed,
        }
    }
}

impl<A: RemoteAddr> SoeMultiplexer<A> {
    /// Creates a new, empty multiplexer.
    pub fn new(config: SocketConfig) -> (r: Self)
        ensures
            r@ == MuxView::<A>::initial(config@),
            r@.wf(),
    {
        let next_seed: u64 = config.base_rng_seed;
        let r = SoeMultiplexer {
            config,
            sessions: Vec::new(),
            outgoing: Vec::new(),
            events: Vec::new(),
            next_seed,
        };
        assert(r@ =~= MuxView::<A>::initial(config@));
        r
    }

    /// Returns the number of active sessions.
    pub fn session_count(&self) -> (n: usize)
        ensures
            n == self@.sessions.len(),
    {
        self.sessions.len()
    }

    /// Returns a reference to the session for `remote`, if one exists.
    pub fn session(&self, remote: &A) -> (r: Option<&SoeSession>)
        requires
            lawful::<A>(),
            self@.wf(),
        ensures
            match self@.session_of(*remote) {
                Some(s) => r matches Some(t) && t@ == s,
                None => r is None,
            },
    {
        match self.position(remote) {
            Some(k) => Some(&self.sessions[k].1),
            None => None,
        }
    }

    /// Whether a datagram from `remote` can be taken in.
    pub fn is_ready_for(&self, remote: &A, datagram: &Bytes) -> (r: bool)
        requires
            lawful::<A>(),
            self@.wf(),
        ensures
            r == self@.ready_for(*remote, content(*datagram)),
    {
        match self.session(remote) {
            Some(session) => session.is_ready(datagram),
            None => buffer::as_slice(datagram).len() <= MAX_DATAGRAM_LENGTH,
        }
    }

    /// Where the session for `remote` is, if one exists.
    fn position(&self, remote: &A) -> (r: Option<usize>)
        requires
            lawful::<A>(),
            self@.wf(),
        ensures
            match place_of(self@.sessions, *remote) {
                Some(k) => r matches Some(n) && n == k && n < self@.sessions.len()
                    && self@.sessions[n as int].0 == *remote,
                None => r is None,
            },
    {
        let mut k: usize = 0;
        while k < self.sessions.len()
            invariant
                lawful::<A>(),
                self@.wf(),
                k <= self@.sessions.len(),
                forall|j: int| 0 <= j < k ==> (#[trigger] self@.sessions[j]).0 != *remote,
            decreases self@.sessions.len() - k,
        {
            assert(self@.sessions[k as int].0 == self.sessions@[k as int].0);
            if self.sessions[k].0 == *remote {
                proof {
                    place_found(self@.sessions, k as int);
                }
                return Some(k);
            }
            k = k + 1;
        }
        None
    }

    /// Drains datagrams to be sent, each tagged with its destination address.
    pub fn take_outgoing(&mut self) -> (out: Vec<(A, Bytes)>)
        ensures
            datagram_views(out@) == old(self)@.outgoing,
            final(self)@ == (MuxView { outgoing: Seq::empty(), ..old(self)@ }),
    {
        let mut out: Vec<(A, Bytes)> = Vec::new();
        core::mem::swap(&mut out, &mut self.outgoing);
        assert(self@.outgoing =~= Seq::<(A, Seq<u8>)>::empty());
        out
    }

    /// Drains accumulated session events.
    pub fn take_events(&mut self) -> (out: Vec<SocketEvent<A>>)
        ensures
            event_views(out@) == old(self)@.events,
            final(self)@ == (MuxView { events: Seq::empty(), ..old(self)@ }),
    {
        let mut out: Vec<SocketEvent<A>> = Vec::new();
        core::mem::swap(&mut out, &mut self.events);
        assert(self@.events =~= Seq::<SocketEventView<A>>::empty());
        out
    }

    /// Opens a client session to `remote` and sends the initial session request.
    pub fn connect(&mut self, remote: A, now: Instant)
        requires
            lawful::<A>(),
            old(self)@.wf(),
        ensures
            final(self)@ == old(self)@.connected(remote, now),
            final(self)@.wf(),
    {
        let ghost v = self@;
        let mut session = self.create_session(SessionMode::Client, now);
        session.send_session_request();
        let ghost s = session@;
        let k: usize = self.store(remote, session);
        proof {
            settle_stored(v.seed_used(), remote, s);
            settle_keeps(v.seed_used(), remote, s);
        }
        self.settle(k);
    }

    /// Enqueues application data to be sent reliably to `remote`. Returns `false` if
    /// there is no running session for that address.
    ///
    /// A remote that accepts only very short datagrams, as it says in its part of the
    /// handshake, cannot be sent the data: ask [`accepts`](SoeSession::accepts) of its
    /// session first.
    pub fn enqueue_data(&mut self, remote: &A, data: &[u8]) -> (r: bool)
        requires
            lawful::<A>(),
            old(self)@.wf(),
            old(self)@.can_enqueue(*remote, data@),
        ensures
            final(self)@ == old(self)@.enqueued(*remote, data@),
            final(self)@.wf(),
            r == old(self)@.is_running(*remote),
    {
        let ghost v = self@;
        match self.position(remote) {
            Some(k) => {
                let ghost s = v.sessions[k as int].1;
                assert(alive(s));
                let queued = self.sessions[k].1.enqueue_data(data);
                proof {
                    let next = s.enqueued(data@);
                    assert(self@ =~= v.with_session(*remote, next));
                    settle_stored(v, *remote, next);
                    settle_keeps(v, *remote, next);
                }
                self.settle(k);
                queued
            },
            None => false,
        }
    }

    /// Terminates the session with `remote`, notifying the remote party.
    pub fn terminate(&mut self, remote: &A, reason: DisconnectReason, now: Instant)
        requires
            lawful::<A>(),
            old(self)@.wf(),
        ensures
            final(self)@ == old(self)@.terminated(*remote, reason, now),
            final(self)@.wf(),
    {
        let ghost v = self@;
        match self.position(remote) {
            Some(k) => {
                let ghost s = v.sessions[k as int].1;
                assert(alive(s));
                self.sessions[k].1.terminate(reason, true, now);
                proof {
                    let next = s.terminated(reason, true, false, now);
                    assert(self@ =~= v.with_session(*remote, next));
                    settle_stored(v, *remote, next);
                    settle_keeps(v, *remote, next);
                }
                self.settle(k);
            },
            None => {},
        }
    }

    /// Processes a single datagram received from `remote`.
    pub fn process_incoming(&mut self, remote: A, datagram: Bytes, now: Instant)
        requires
            lawful::<A>(),
            old(self)@.wf(),
            old(self)@.ready_for(remote, content(datagram)),
        ensures
            final(self)@ == old(self)@.processed(remote, content(datagram), now),
            final(self)@.wf(),
    {
        let ghost v = self@;
        match self.position(&remote) {
            Some(k) => {
                let ghost s = v.sessions[k as int].1;
                assert(alive(s));
                self.sessions[k].1.process_incoming(datagram, now);
                proof {
                    let next = s.processed(content(datagram), now);
                    assert(self@ =~= v.with_session(remote, next));
                    settle_stored(v, remote, next);
                    settle_keeps(v, remote, next);
                }
                self.settle(k);
            },
            None => match read_op_code(buffer::as_slice(&datagram)) {
                Some(OpCode::SessionRequest) => {
                    let mut session = self.create_session(SessionMode::Server, now);
                    session.process_incoming(datagram, now);
                    let ghost s = session@;
                    let k: usize = self.store(remote, session);
                    proof {
                        settle_stored(v.seed_used(), remote, s);
                        settle_keeps(v.seed_used(), remote, s);
                    }
                    self.settle(k);
                },
                Some(OpCode::RemapConnection) => {
                    self.handle_remap(remote, buffer::as_slice(&datagram));
                },
                // No session and not an opener: nothing we can do with this datagram.
                _ => {},
            },
        }
    }

    /// Runs a single tick over every session: heartbeats, timeouts, and the reliable
    /// data channels. Terminated sessions are removed (after their final events are
    /// surfaced).
    #[verifier::rlimit(40)]
    pub fn run_tick(&mut self, now: Instant)
        requires
            lawful::<A>(),
            old(self)@.wf(),
        ensures
            final(self)@ == old(self)@.ticked(now),
            final(self)@.wf(),
    {
        let ghost v = self@;
        let ghost mut n: int = 0;
        let mut k: usize = 0;
        while k < self.sessions.len()
            invariant
                lawful::<A>(),
                self@.wf(),
                v.wf(),
                0 <= n <= v.sessions.len(),
                self@ == v.ticked_some(n, now),
                k + v.sessions.len() - n == self@.sessions.len(),
                forall|j: int|
                    n <= j < v.sessions.len() ==> self@.sessions[k + j - n] == (
                    #[trigger] v.sessions[j]),
            decreases v.sessions.len() - n,
        {
            let ghost before = self@;
            let ghost (remote, s) = v.sessions[n];
            assert(before.sessions[k as int] == (remote, s));
            assert(alive(s));
            self.sessions[k].1.run_tick(now);
            let ghost next = s.ticked(now);
            proof {
                place_found(before.sessions, k as int);
                assert(self@ =~= before.with_session(remote, next));
                settle_stored(before, remote, next);
                settle_keeps(before, remote, next);
            }
            if self.settle(k) {
                k = k + 1;
            }
            proof {
                n = n + 1;
                assert(self@ == before.settled(remote, next));
                assert forall|j: int| n <= j < v.sessions.len() implies self@.sessions[k + j
                    - n] == (#[trigger] v.sessions[j]) by {
                    assert(before.sessions[k + j - n + (if next.state
                        == SessionState::Terminated {
                        1int
                    } else {
                        0
                    })] == v.sessions[j]);
                }
            }
        }
    }

    /// A new session, with the next seed.
    fn create_session(&mut self, mode: SessionMode, now: Instant) -> (session: SoeSession)
        requires
            old(self)@.wf(),
        ensures
            session@ == old(self)@.new_session(mode, now),
            session@.wf(),
            final(self)@ == old(self)@.seed_used(),
    {
        let seed: u64 = self.next_seed;
        self.next_seed = self.next_seed.wrapping_add(1);
        SoeSession::new(
            mode,
            self.config.default_session_params.clone(),
            self.config.app_params.clone(),
            seed,
            now,
        )
    }

    /// Puts a session in its place, which is that of an earlier session with the same
    /// remote where there is one. Returns that place.
    fn store(&mut self, remote: A, session: SoeSession) -> (k: usize)
        requires
            lawful::<A>(),
            old(self)@.wf(),
        ensures
            final(self)@ == old(self)@.with_session(remote, session@),
            k < final(self)@.sessions.len(),
            final(self)@.sessions[k as int] == (remote, session@),
    {
        let ghost v = self@;
        match self.position(&remote) {
            Some(k) => {
                self.sessions[k] = (remote, session);
                assert(self@ =~= v.with_session(remote, session@));
                k
            },
            None => {
                let k: usize = self.sessions.len();
                self.sessions.push((remote, session));
                assert(self@ =~= v.with_session(remote, session@));
                k
            },
        }
    }

    fn handle_remap(&mut self, from: A, datagram: &[u8])
        requires
            lawful::<A>(),
            old(self)@.wf(),
            place_of(old(self)@.sessions, from) is None,
        ensures
            final(self)@ == old(self)@.remapped(from, datagram@),
            final(self)@.wf(),
    {
        if !self.config.allow_port_remaps {
            return;
        }
        let remap = match RemapConnection::deserialize(datagram) {
            Ok(remap) => remap,
            Err(_) => {
                return;
            },
        };
        let k: usize = match self.holder(&remap) {
            Some(k) => k,
            None => {
                return;
            },
        };
        let ghost v = self@;
        assert(v.sessions[k as int].0 == self.sessions@[k as int].0);

        // Only a port change is acceptable; a differing host is likely a hijack.
        if self.sessions[k].0 == from || !self.sessions[k].0.same_host(&from) {
            return;
        }
        let (_, session) = self.sessions.remove(k);
        self.sessions.push((from, session));
        proof {
            let r = v.remapped(from, datagram@);
            let rest = v.sessions.remove(k as int);
            assert(self@.sessions =~= r.sessions);
            remove_keeps_distinct(v.sessions, k as int);
            place_missing(rest, from);
            push_keeps_distinct(rest, from, v.sessions[k as int].1);
            assert forall|j: int| 0 <= j < r.sessions.len() implies alive(
                (#[trigger] r.sessions[j]).1,
            ) by {
                if j < rest.len() {
                    assert(r.sessions[j] == rest[j]);
                } else {
                    assert(alive(v.sessions[k as int].1));
                }
            }
        }
    }

    /// Where the first session is that a remap packet names, if there is one.
    fn holder(&self, remap: &RemapConnection) -> (r: Option<usize>)
        ensures
            match holder(self@.sessions, *remap) {
                Some(k) => r matches Some(n) && n == k && n < self@.sessions.len(),
                None => r is None,
            },
    {
        let mut k: usize = 0;
        let ghost all = self@.sessions;
        while k < self.sessions.len()
            invariant
                all == self@.sessions,
                k <= all.len(),
                holder(all.take(k as int), *remap) is None,
            decreases all.len() - k,
        {
            assert(all.take(k + 1).drop_last() =~= all.take(k as int));
            assert(all[k as int].1 == self.sessions@[k as int].1@);
            if self.sessions[k].1.session_id() == remap.session_id
                && self.sessions[k].1.crc_seed() == remap.crc_seed {
                proof {
                    holder_extends(all, *remap, k + 1);
                }
                return Some(k);
            }
            k = k + 1;
        }
        assert(all.take(k as int) =~= all);
        None
    }

    /// Takes everything from the session at `k`, and drops that session if it is
    /// terminated. Returns whether it was kept.
    fn settle(&mut self, k: usize) -> (kept: bool)
        requires
            lawful::<A>(),
            k < old(self)@.sessions.len(),
            distinct(old(self)@.sessions),
        ensures
            ({
                let (remote, s) = old(self)@.sessions[k as int];
                &&& final(self)@ == old(self)@.settled(remote, s)
                &&& kept == (s.state != SessionState::Terminated)
            }),
    {
        let ghost v = self@;
        let ghost (to, s) = v.sessions[k as int];
        proof {
            place_found(v.sessions, k as int);
        }
        let remote = self.sessions[k].0.clone();
        assert(cloned(to, remote));
        self.drain_into(k, &remote);
        assert(self@.sessions.len() == self.sessions@.len());
        assert(self@.sessions[k as int] == (to, drained(s)));
        if self.sessions[k].1.state() == SessionState::Terminated {
            let ghost before = self@.sessions;
            self.sessions.remove(k);
            assert(self@.sessions =~= before.remove(k as int));
            assert(self@.sessions =~= v.sessions.remove(k as int));
            assert(self@ =~= v.settled(to, s));
            false
        } else {
            assert(self@ =~= v.settled(to, s));
            true
        }
    }

    /// Moves a session's pending datagrams, received data, and events into the
    /// multiplexer's buffers, tagging each with `remote`.
    ///
    /// Events are ordered so that a session's [`SocketEvent::SessionOpened`] is always
    /// surfaced before any of its [`SocketEvent::DataReceived`], and its
    /// [`SocketEvent::SessionClosed`] always after. This lets consumers that key
    /// per-session state on lifecycle events (e.g. spawning a task on open) reliably
    /// have that state in place before the session's data arrives.
    fn drain_into(&mut self, k: usize, remote: &A)
        requires
            lawful::<A>(),
            k < old(self)@.sessions.len(),
        ensures
            ({
                let v = old(self)@;
                let (to, s) = v.sessions[k as int];
                final(self)@ == (MuxView {
                    sessions: v.sessions.update(k as int, (to, drained(s))),
                    outgoing: v.outgoing + tagged(*remote, s.outgoing),
                    events: v.events + surfaced(*remote, s),
                    ..v
                })
            }),
    {
        let ghost v = self@;
        let ghost (to, s) = v.sessions[k as int];
        let outgoing = self.sessions[k].1.take_outgoing();
        let events = self.sessions[k].1.take_events();
        let received = self.sessions[k].1.take_received();
        let ghost taken = self@;
        assert(taken.sessions =~= v.sessions.update(k as int, (to, drained(s))));

        self.push_outgoing(remote, outgoing);
        let mut n: usize = 0;
        while n < events.len()
            invariant
                lawful::<A>(),
                n <= events@.len(),
                self@ == (MuxView {
                    outgoing: v.outgoing + tagged(*remote, s.outgoing),
                    events: v.events + openings(*remote, events@.take(n as int)),
                    ..taken
                }),
            decreases events@.len() - n,
        {
            let ghost before = self@.events;
            assert(events@.take(n + 1).drop_last() =~= events@.take(n as int));
            match events[n] {
                SessionEvent::Opened => {
                    let address = remote.clone();
                    assert(cloned(*remote, address));
                    let event = SocketEvent::SessionOpened { remote: address };
                    self.events.push(event);
                    assert(self@.events =~= before.push(event@));
                },
                SessionEvent::Closed(_) => {},
            }
            n = n + 1;
            assert(self@.events =~= v.events + openings(*remote, events@.take(n as int)));
        }
        assert(events@.take(n as int) =~= s.events);
        self.push_received(remote, received);
        let ghost middle = self@.events;
        let mut n: usize = 0;
        assert(middle + closings(*remote, events@.take(0)) =~= middle);
        while n < events.len()
            invariant
                lawful::<A>(),
                n <= events@.len(),
                self@ == (MuxView {
                    outgoing: v.outgoing + tagged(*remote, s.outgoing),
                    events: middle + closings(*remote, events@.take(n as int)),
                    ..taken
                }),
            decreases events@.len() - n,
        {
            let ghost before = self@.events;
            assert(events@.take(n + 1).drop_last() =~= events@.take(n as int));
            match events[n] {
                SessionEvent::Opened => {},
                SessionEvent::Closed(reason) => {
                    let address = remote.clone();
                    assert(cloned(*remote, address));
                    let event = SocketEvent::SessionClosed { remote: address, reason };
                    self.events.push(event);
                    assert(self@.events =~= before.push(event@));
                },
            }
            n = n + 1;
            assert(self@.events =~= middle + closings(*remote, events@.take(n as int)));
        }
        assert(events@.take(n as int) =~= s.events);
        assert(self@.events =~= v.events + surfaced(*remote, s));
    }

    /// Adds datagrams to send to `remote`.
    fn push_outgoing(&mut self, remote: &A, datagrams: Vec<Bytes>)
        requires
            lawful::<A>(),
        ensures
            final(self)@ == (MuxView {
                outgoing: old(self)@.outgoing + tagged(*remote, contents(datagrams@)),
                ..old(self)@
            }),
    {
        let ghost v = self@;
        let ghost all = tagged(*remote, contents(datagrams@));
        let mut n: usize = 0;
        assert(v.outgoing + all.take(0) =~= v.outgoing);
        while n < datagrams.len()
            invariant
                lawful::<A>(),
                n <= datagrams@.len(),
                all == tagged(*remote, contents(datagrams@)),
                self@ == (MuxView { outgoing: v.outgoing + all.take(n as int), ..v }),
            decreases datagrams@.len() - n,
        {
            let ghost before = self@.outgoing;
            let address = remote.clone();
            assert(cloned(*remote, address));
            let datagram = datagrams[n].clone();
            self.outgoing.push((address, datagram));
            n = n + 1;
            assert(self@.outgoing =~= before.push((*remote, content(datagram))));
            assert(self@.outgoing =~= v.outgoing + all.take(n as int));
        }
        assert(all.take(n as int) =~= all);
    }

    /// Surfaces data received from `remote`.
    fn push_received(&mut self, remote: &A, received: Vec<Bytes>)
        requires
            lawful::<A>(),
        ensures
            final(self)@ == (MuxView {
                events: old(self)@.events + arrivals(*remote, contents(received@)),
                ..old(self)@
            }),
    {
        let ghost v = self@;
        let ghost all = arrivals(*remote, contents(received@));
        let mut n: usize = 0;
        assert(v.events + all.take(0) =~= v.events);
        while n < received.len()
            invariant
                lawful::<A>(),
                n <= received@.len(),
                all == arrivals(*remote, contents(received@)),
                self@ == (MuxView { events: v.events + all.take(n as int), ..v }),
            decreases received@.len() - n,
        {
            let ghost before = self@.events;
            let address = remote.clone();
            assert(cloned(*remote, address));
            let event = SocketEvent::DataReceived { remote: address, data: received[n].clone() };
            self.events.push(event);
            n = n + 1;
            assert(self@.events =~= before.push(event@));
            assert(self@.events =~= v.events + all.take(n as int));
        }
        assert(all.take(n as int) =~= all);
    }
}

/// The first session that a remap packet names is the first among all that follow, too.
proof fn holder_extends<A>(sessions: Seq<(A, SessionView)>, remap: RemapConnection, n: int)
    requires
        0 <= n <= sessions.len(),
        holder(sessions.take(n), remap) is Some,
    ensures
        holder(sessions, remap) == holder(sessions.take(n), remap),
    decreases sessions.len(),
{
    if n == sessions.len() {
        assert(sessions.take(n) =~= sessions);
    } else {
        assert(sessions.drop_last().take(n) =~= sessions.take(n));
        holder_extends(sessions.drop_last(), remap, n);
    }
}

} // verus!
