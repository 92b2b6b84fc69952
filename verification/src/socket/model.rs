//! What a multiplexer holds, and what becomes of it.
use vstd::prelude::*;

use crate::constants::MAX_DATAGRAM_LENGTH;
use crate::packet_utils::leading_op_code;
use crate::packets::{remap_of, RemapConnection};
use crate::protocol::{DisconnectReason, OpCode};
use crate::rc4::KeyView;
use crate::session::model::{ParamsView, SessionView};
use crate::session::{SessionEvent, SessionMode, SessionState};
use crate::socket::RemoteAddr;
use crate::time::Instant;

verus! {

/// The options of a multiplexer.
pub struct ConfigView {
    /// The parameters of new sessions.
    pub params: ParamsView,
    /// The cipher state of new sessions.
    pub cipher: Option<KeyView>,
    /// Whether sessions may move to another port.
    pub allow_port_remaps: bool,
    /// The seed of the first session.
    pub base_rng_seed: u64,
}

/// An event of a multiplexer, by the bytes it holds.
pub enum SocketEventView<A> {
    /// A session has been established.
    SessionOpened {
        /// The remote address of the session.
        remote: A,
    },
    /// Application data was received.
    DataReceived {
        /// The remote address that the data came from.
        remote: A,
        /// The data.
        data: Seq<u8>,
    },
    /// A session has terminated.
    SessionClosed {
        /// The remote address of the session.
        remote: A,
        /// Why it has.
        reason: DisconnectReason,
    },
}

/// What a multiplexer holds.
#[verifier::ext_equal]
pub struct MuxView<A> {
    /// The options.
    pub config: ConfigView,
    /// The sessions, each with its remote address.
    pub sessions: Seq<(A, SessionView)>,
    /// Datagrams to send that were not yet taken, each with where it is to go.
    pub outgoing: Seq<(A, Seq<u8>)>,
    /// Events not yet taken.
    pub events: Seq<SocketEventView<A>>,
    /// The seed of the next session.
    pub next_seed: u64,
}

/// The place of a remote among sessions, if it is there.
pub open spec fn place_of<A>(sessions: Seq<(A, SessionView)>, remote: A) -> Option<int> {
    if exists|k: int| 0 <= k < sessions.len() && (#[trigger] sessions[k]).0 == remote {
        Some(choose|k: int| 0 <= k < sessions.len() && (#[trigger] sessions[k]).0 == remote)
    } else {
        None
    }
}

/// Whether no two sessions have the same remote.
pub open spec fn distinct<A>(sessions: Seq<(A, SessionView)>) -> bool {
    forall|j: int, k: int|
        0 <= j < k < sessions.len() ==> (#[trigger] sessions[j]).0 != (#[trigger] sessions[k]).0
}

/// The datagrams that a session wants to send, each with where it is to go.
pub open spec fn tagged<A>(remote: A, datagrams: Seq<Seq<u8>>) -> Seq<(A, Seq<u8>)> {
    Seq::new(datagrams.len(), |k: int| (remote, datagrams[k]))
}

/// What is surfaced of the opening of a session.
pub open spec fn openings<A>(remote: A, events: Seq<SessionEvent>) -> Seq<SocketEventView<A>>
    decreases events.len(),
{
    if events.len() == 0 {
        Seq::empty()
    } else {
        let before = openings(remote, events.drop_last());
        match events.last() {
            SessionEvent::Opened => before.push(SocketEventView::SessionOpened { remote }),
            SessionEvent::Closed(_) => before,
        }
    }
}

/// What is surfaced of the end of a session.
pub open spec fn closings<A>(remote: A, events: Seq<SessionEvent>) -> Seq<SocketEventView<A>>
    decreases events.len(),
{
    if events.len() == 0 {
        Seq::empty()
    } else {
        let before = closings(remote, events.drop_last());
        match events.last() {
            SessionEvent::Opened => before,
            SessionEvent::Closed(reason) => before.push(
                SocketEventView::SessionClosed { remote, reason },
            ),
        }
    }
}

/// What is surfaced of the data of a session.
pub open spec fn arrivals<A>(remote: A, received: Seq<Seq<u8>>) -> Seq<SocketEventView<A>> {
    Seq::new(
        received.len(),
        |k: int| SocketEventView::DataReceived { remote, data: received[k] },
    )
}

/// What is surfaced of a session: that it opened, then its data, then that it closed.
pub open spec fn surfaced<A>(remote: A, s: SessionView) -> Seq<SocketEventView<A>> {
    openings(remote, s.events) + arrivals(remote, s.received) + closings(remote, s.events)
}

/// A session from which everything was taken.
pub open spec fn drained(s: SessionView) -> SessionView {
    SessionView {
        outgoing: Seq::empty(),
        received: Seq::empty(),
        events: Seq::empty(),
        ..s
    }
}

/// Whether a session is the one that a remap packet names.
pub open spec fn named_by(s: SessionView, remap: RemapConnection) -> bool {
    s.session_id == remap.session_id && s.params.crc_seed == remap.crc_seed
}

/// The place of the first session that a remap packet names, if there is one.
pub open spec fn holder<A>(sessions: Seq<(A, SessionView)>, remap: RemapConnection) -> Option<int>
    decreases sessions.len(),
{
    if sessions.len() == 0 {
        None
    } else {
        match holder(sessions.drop_last(), remap) {
            Some(k) => Some(k),
            None => if named_by(sessions.last().1, remap) {
                Some(sessions.len() - 1)
            } else {
                None
            },
        }
    }
}

impl<A: RemoteAddr> MuxView<A> {
    /// What holds of a multiplexer at all times: no two sessions have the same remote,
    /// and every session is well formed, is not terminated and was drained.
    pub open spec fn wf(self) -> bool {
        &&& distinct(self.sessions)
        &&& forall|k: int| 0 <= k < self.sessions.len() ==> alive((#[trigger] self.sessions[k]).1)
    }

    /// A multiplexer without sessions.
    pub open spec fn initial(config: ConfigView) -> Self {
        MuxView {
            config,
            sessions: Seq::empty(),
            outgoing: Seq::empty(),
            events: Seq::empty(),
            next_seed: config.base_rng_seed,
        }
    }

    /// The session with a remote, if there is one.
    pub open spec fn session_of(self, remote: A) -> Option<SessionView> {
        match place_of(self.sessions, remote) {
            Some(k) => Some(self.sessions[k].1),
            None => None,
        }
    }

    /// A new session, as the next one to be made.
    pub open spec fn new_session(self, mode: SessionMode, now: Instant) -> SessionView {
        SessionView::initial(mode, self.config.params, self.config.cipher, self.next_seed, now)
    }

    /// The multiplexer once it has made a session.
    pub open spec fn seed_used(self) -> Self {
        MuxView { next_seed: self.next_seed.wrapping_add(1), ..self }
    }

    /// The multiplexer with `s` as the session with `remote`.
    pub open spec fn with_session(self, remote: A, s: SessionView) -> Self {
        MuxView {
            sessions: match place_of(self.sessions, remote) {
                Some(k) => self.sessions.update(k, (remote, s)),
                None => self.sessions.push((remote, s)),
            },
            ..self
        }
    }

    /// The multiplexer without a session with `remote`.
    pub open spec fn without_session(self, remote: A) -> Self {
        MuxView {
            sessions: match place_of(self.sessions, remote) {
                Some(k) => self.sessions.remove(k),
                None => self.sessions,
            },
            ..self
        }
    }

    /// The multiplexer once it has taken everything from the session with `remote`,
    /// which is now `s`. A session that is terminated is dropped.
    pub open spec fn settled(self, remote: A, s: SessionView) -> Self {
        let kept = if s.state == SessionState::Terminated {
            self.without_session(remote)
        } else {
            self.with_session(remote, drained(s))
        };
        MuxView {
            outgoing: self.outgoing + tagged(remote, s.outgoing),
            events: self.events + surfaced(remote, s),
            ..kept
        }
    }

    /// The multiplexer once it has asked `remote` for a session.
    pub open spec fn connected(self, remote: A, now: Instant) -> Self {
        self.seed_used().settled(remote, self.new_session(SessionMode::Client, now).requested())
    }

    /// The multiplexer once it was given data for `remote`.
    pub open spec fn enqueued(self, remote: A, data: Seq<u8>) -> Self {
        match self.session_of(remote) {
            Some(s) => self.settled(remote, s.enqueued(data)),
            None => self,
        }
    }

    /// The multiplexer once it has ended the session with `remote`.
    pub open spec fn terminated(self, remote: A, reason: DisconnectReason, now: Instant) -> Self {
        match self.session_of(remote) {
            Some(s) => self.settled(remote, s.terminated(reason, true, false, now)),
            None => self,
        }
    }

    /// The multiplexer once it has processed a datagram from `remote`.
    pub open spec fn processed(self, remote: A, datagram: Seq<u8>, now: Instant) -> Self {
        match self.session_of(remote) {
            Some(s) => self.settled(remote, s.processed(datagram, now)),
            None => match leading_op_code(datagram) {
                Some(OpCode::SessionRequest) => self.seed_used().settled(
                    remote,
                    self.new_session(SessionMode::Server, now).processed(datagram, now),
                ),
                Some(OpCode::RemapConnection) => self.remapped(remote, datagram),
                _ => self,
            },
        }
    }

    /// The multiplexer once it has dealt with a remap packet from `from`, a remote that
    /// has no session.
    pub open spec fn remapped(self, from: A, datagram: Seq<u8>) -> Self {
        match remap_of(datagram) {
            Err(_) => self,
            Ok(remap) => match holder(self.sessions, remap) {
                None => self,
                Some(k) => {
                    let (old, s) = self.sessions[k];
                    if !self.config.allow_port_remaps || old == from || !old.is_same_host(&from) {
                        self
                    } else {
                        MuxView { sessions: self.sessions.remove(k).push((from, s)), ..self }
                    }
                },
            },
        }
    }

    /// The multiplexer once it has ticked the first `n` of its sessions.
    pub open spec fn ticked_some(self, n: int, now: Instant) -> Self
        decreases n,
    {
        if n <= 0 {
            self
        } else {
            let (remote, s) = self.sessions[n - 1];
            self.ticked_some(n - 1, now).settled(remote, s.ticked(now))
        }
    }

    /// The multiplexer after its periodic work.
    pub open spec fn ticked(self, now: Instant) -> Self {
        self.ticked_some(self.sessions.len() as int, now)
    }

    /// Whether data for `remote` can be taken in.
    pub open spec fn can_enqueue(self, remote: A, data: Seq<u8>) -> bool {
        match self.session_of(remote) {
            Some(s) => s.can_enqueue(data),
            None => true,
        }
    }

    /// Whether there is a session with `remote` that is running.
    pub open spec fn is_running(self, remote: A) -> bool {
        match self.session_of(remote) {
            Some(s) => s.state == SessionState::Running,
            None => false,
        }
    }

    /// Whether a datagram from `remote` can be taken in: by the session with that remote,
    /// where there is one. Without one there is no more to it than the length.
    pub open spec fn ready_for(self, remote: A, datagram: Seq<u8>) -> bool {
        match self.session_of(remote) {
            Some(s) => s.ready(datagram),
            None => datagram.len() <= MAX_DATAGRAM_LENGTH,
        }
    }
}

/// Whether a session is well formed, is not terminated and was drained.
pub open spec fn alive(s: SessionView) -> bool {
    &&& s.wf()
    &&& s.state != SessionState::Terminated
    &&& s == drained(s)
}

/// The place of a remote that has a session is the only one.
pub proof fn place_found<A>(sessions: Seq<(A, SessionView)>, k: int)
    requires
        distinct(sessions),
        0 <= k < sessions.len(),
    ensures
        place_of(sessions, sessions[k].0) == Some(k),
{
    let remote = sessions[k].0;
    let p = place_of(sessions, remote);
    assert(sessions[k].0 == remote);
    if p->0 != k {
        assert(sessions[p->0].0 == remote);
    }
}

/// Taking a session out leaves the others, under their own remotes.
pub proof fn remove_keeps_distinct<A>(sessions: Seq<(A, SessionView)>, k: int)
    requires
        distinct(sessions),
        0 <= k < sessions.len(),
    ensures
        distinct(sessions.remove(k)),
        forall|j: int|
            0 <= j < sessions.len() - 1 ==> (#[trigger] sessions.remove(k)[j]) == sessions[if j
                < k {
                j
            } else {
                j + 1
            }] && sessions.remove(k)[j].0 != sessions[k].0,
{
    let rest = sessions.remove(k);
    assert forall|i: int, j: int| 0 <= i < j < rest.len() implies (#[trigger] rest[i]).0 != (
    #[trigger] rest[j]).0 by {
        let a = if i < k {
            i
        } else {
            i + 1
        };
        let b = if j < k {
            j
        } else {
            j + 1
        };
        assert(rest[i] == sessions[a]);
        assert(rest[j] == sessions[b]);
    }
}

/// Adding a session under a remote that has none leaves the others, under their own
/// remotes.
pub proof fn push_keeps_distinct<A>(sessions: Seq<(A, SessionView)>, remote: A, s: SessionView)
    requires
        distinct(sessions),
        place_of(sessions, remote) is None,
    ensures
        distinct(sessions.push((remote, s))),
{
    let all = sessions.push((remote, s));
    assert forall|i: int, j: int| 0 <= i < j < all.len() implies (#[trigger] all[i]).0 != (
    #[trigger] all[j]).0 by {
        assert(all[i] == sessions[i]);
        if j < sessions.len() {
            assert(all[j] == sessions[j]);
        }
    }
}

/// A remote has no session where no session has it.
pub proof fn place_missing<A>(sessions: Seq<(A, SessionView)>, remote: A)
    requires
        forall|j: int| 0 <= j < sessions.len() ==> (#[trigger] sessions[j]).0 != remote,
    ensures
        place_of(sessions, remote) is None,
{
}

/// Settling a session leaves no two sessions with the same remote.
pub proof fn settle_keeps_distinct<A: RemoteAddr>(v: MuxView<A>, remote: A, s: SessionView)
    requires
        distinct(v.sessions),
    ensures
        distinct(v.settled(remote, s).sessions),
{
    let r = v.settled(remote, s);
    match place_of(v.sessions, remote) {
        Some(k) => {
            assert(v.sessions[k].0 == remote);
            if s.state == SessionState::Terminated {
                remove_keeps_distinct(v.sessions, k);
            } else {
                assert forall|i: int, j: int| 0 <= i < j < r.sessions.len() implies (
                #[trigger] r.sessions[i]).0 != (#[trigger] r.sessions[j]).0 by {
                    assert(r.sessions[i].0 == v.sessions[i].0);
                    assert(r.sessions[j].0 == v.sessions[j].0);
                }
            }
        },
        None => {
            push_keeps_distinct(v.sessions, remote, drained(s));
        },
    }
}

/// Settling a session keeps a multiplexer well formed.
pub proof fn settle_keeps<A: RemoteAddr>(v: MuxView<A>, remote: A, s: SessionView)
    requires
        v.wf(),
        s.wf(),
    ensures
        v.settled(remote, s).wf(),
{
    let r = v.settled(remote, s);
    settle_keeps_distinct(v, remote, s);
    let p = place_of(v.sessions, remote);
    if p is Some {
        remove_keeps_distinct(v.sessions, p->0);
    }
    assert(alive(drained(s)) || s.state == SessionState::Terminated);
    assert forall|k: int| 0 <= k < r.sessions.len() implies alive((#[trigger] r.sessions[k]).1) by {
        if s.state != SessionState::Terminated && k < v.sessions.len() && p != Some(k) {
            assert(r.sessions[k] == v.sessions[k]);
        }
    }
}

/// Settling a session that was put in its place already is settling it.
pub proof fn settle_stored<A: RemoteAddr>(v: MuxView<A>, remote: A, s: SessionView)
    requires
        distinct(v.sessions),
    ensures
        distinct(v.with_session(remote, s).sessions),
        v.with_session(remote, s).settled(remote, s) == v.settled(remote, s),
{
    let stored = v.with_session(remote, s);
    let k = match place_of(v.sessions, remote) {
        Some(k) => k,
        None => v.sessions.len() as int,
    };
    assert(stored.sessions[k] == (remote, s));
    place_found(stored.sessions, k);
    assert(stored.settled(remote, s).sessions =~= v.settled(remote, s).sessions);
}

} // verus!
