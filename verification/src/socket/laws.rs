//! What holds of a multiplexer over its sessions.
use vstd::prelude::*;

use crate::packet_utils::leading_op_code;
use crate::packets::{remap_of, RemapConnection};
use crate::protocol::{DisconnectReason, OpCode};
use crate::session::laws::opened_before_data;
use crate::session::model::SessionView;
use crate::session::{SessionEvent, SessionMode, SessionState};
use crate::socket::model::{
    alive, arrivals, closings, distinct, drained, holder, named_by, openings, place_found,
    place_missing, place_of, push_keeps_distinct, remove_keeps_distinct, settle_keeps_distinct,
    surfaced, MuxView, SocketEventView,
};
use crate::socket::RemoteAddr;
use crate::time::Instant;

verus! {

/// A datagram from a remote without a session that neither asks for one nor moves one
/// changes nothing.
pub proof fn stray_datagram_is_ignored<A: RemoteAddr>(
    v: MuxView<A>,
    remote: A,
    datagram: Seq<u8>,
    now: Instant,
)
    requires
        v.session_of(remote) is None,
        leading_op_code(datagram) != Some(OpCode::SessionRequest),
        leading_op_code(datagram) != Some(OpCode::RemapConnection),
    ensures
        v.processed(remote, datagram, now) == v,
{
}

/// Successive sessions get successive seeds.
pub proof fn seeds_are_successive<A: RemoteAddr>(
    v: MuxView<A>,
    remote: A,
    datagram: Seq<u8>,
    now: Instant,
)
    ensures
        v.connected(remote, now).next_seed == v.next_seed.wrapping_add(1),
        v.session_of(remote) is None && leading_op_code(datagram) == Some(
            OpCode::SessionRequest,
        ) ==> v.processed(remote, datagram, now).next_seed == v.next_seed.wrapping_add(1),
        v.new_session(SessionMode::Client, now).rng == v.next_seed ^ 0x9E37_79B9_7F4A_7C15,
{
}

/// Settling a session leaves all others alone, and is what its remote then has.
pub proof fn settling_is_local<A: RemoteAddr>(
    v: MuxView<A>,
    remote: A,
    s: SessionView,
    other: A,
)
    requires
        distinct(v.sessions),
    ensures
        other != remote ==> v.settled(remote, s).session_of(other) == v.session_of(other),
        v.settled(remote, s).session_of(remote) == (if s.state == SessionState::Terminated {
            None
        } else {
            Some(drained(s))
        }),
        distinct(v.settled(remote, s).sessions),
{
    let r = v.settled(remote, s);
    let p = place_of(v.sessions, remote);
    let dropped = s.state == SessionState::Terminated && p is Some;
    settle_keeps_distinct(v, remote, s);
    if p is Some {
        assert(v.sessions[p->0].0 == remote);
        remove_keeps_distinct(v.sessions, p->0);
    }
    if s.state != SessionState::Terminated {
        let k = match p {
            Some(k) => k,
            None => v.sessions.len() as int,
        };
        assert(r.sessions[k] == (remote, drained(s)));
        place_found(r.sessions, k);
    } else {
        place_missing(r.sessions, remote);
    }
    if other != remote {
        match place_of(v.sessions, other) {
            Some(k) => {
                assert(v.sessions[k].0 == other);
                let at = if dropped && k > p->0 {
                    k - 1
                } else {
                    k
                };
                assert(r.sessions[at] == v.sessions[k]);
                place_found(r.sessions, at);
            },
            None => {
                place_missing(r.sessions, other);
            },
        }
    }
}

/// Whatever is done with one remote leaves the sessions with all others as they are. A
/// datagram that moves a session is another matter.
pub proof fn remotes_are_isolated<A: RemoteAddr>(
    v: MuxView<A>,
    remote: A,
    other: A,
    datagram: Seq<u8>,
    data: Seq<u8>,
    reason: DisconnectReason,
    now: Instant,
)
    requires
        v.wf(),
        other != remote,
    ensures
        v.connected(remote, now).session_of(other) == v.session_of(other),
        v.enqueued(remote, data).session_of(other) == v.session_of(other),
        v.terminated(remote, reason, now).session_of(other) == v.session_of(other),
        leading_op_code(datagram) != Some(OpCode::RemapConnection) ==> v.processed(
            remote,
            datagram,
            now,
        ).session_of(other) == v.session_of(other),
{
    let asked = v.new_session(SessionMode::Client, now).requested();
    settling_is_local(v.seed_used(), remote, asked, other);
    let accepted = v.new_session(SessionMode::Server, now).processed(datagram, now);
    settling_is_local(v.seed_used(), remote, accepted, other);
    assert(v.seed_used().session_of(other) == v.session_of(other));
    match v.session_of(remote) {
        Some(s) => {
            settling_is_local(v, remote, s.enqueued(data), other);
            settling_is_local(v, remote, s.terminated(reason, true, false, now), other);
            settling_is_local(v, remote, s.processed(datagram, now), other);
        },
        None => {},
    }
}

/// A session that is terminated is gone, and its end is the last that is surfaced of it.
pub proof fn terminated_session_is_gone<A: RemoteAddr>(
    v: MuxView<A>,
    remote: A,
    reason: DisconnectReason,
    now: Instant,
)
    requires
        v.wf(),
        v.session_of(remote) is Some,
    ensures
        v.terminated(remote, reason, now).session_of(remote) is None,
        v.terminated(remote, reason, now).events.last() == (SocketEventView::SessionClosed {
            remote,
            reason,
        }),
{
    let k = place_of(v.sessions, remote)->0;
    assert(v.sessions[k].0 == remote);
    let s = v.session_of(remote)->0;
    assert(alive(v.sessions[k].1));
    let r = s.terminated(reason, true, false, now);
    reveal(SessionView::terminated);
    reveal(SessionView::flushed);
    settling_is_local(v, remote, r, remote);
    assert(r.events.last() == SessionEvent::Closed(reason));
    let c = closings(remote, r.events);
    assert(c.last() == SocketEventView::SessionClosed { remote, reason });
    assert(surfaced(remote, r).last() == c.last());
}

/// The place of an event of a session in the order in which such events are surfaced.
pub open spec fn rank<A>(event: SocketEventView<A>) -> int {
    match event {
        SocketEventView::SessionOpened { .. } => 0,
        SocketEventView::DataReceived { .. } => 1,
        SocketEventView::SessionClosed { .. } => 2,
    }
}

/// The remote that an event concerns.
pub open spec fn remote_of<A>(event: SocketEventView<A>) -> A {
    match event {
        SocketEventView::SessionOpened { remote } => remote,
        SocketEventView::DataReceived { remote, .. } => remote,
        SocketEventView::SessionClosed { remote, .. } => remote,
    }
}

proof fn openings_open<A>(remote: A, events: Seq<SessionEvent>)
    ensures
        forall|k: int|
            0 <= k < openings(remote, events).len() ==> #[trigger] openings(remote, events)[k] == (
            SocketEventView::SessionOpened { remote }),
    decreases events.len(),
{
    if events.len() > 0 {
        openings_open(remote, events.drop_last());
    }
}

proof fn closings_close<A>(remote: A, events: Seq<SessionEvent>)
    ensures
        forall|k: int|
            0 <= k < closings(remote, events).len() ==> rank(
                #[trigger] closings(remote, events)[k],
            ) == 2 && remote_of(closings(remote, events)[k]) == remote,
    decreases events.len(),
{
    if events.len() > 0 {
        closings_close(remote, events.drop_last());
        let before = closings(remote, events.drop_last());
        let all = closings(remote, events);
        assert forall|k: int| 0 <= k < all.len() implies rank(#[trigger] all[k]) == 2 && remote_of(
            all[k],
        ) == remote by {
            if k < before.len() {
                assert(all[k] == before[k]);
            }
        }
    }
}

/// What is surfaced of a session concerns its own remote, and comes in order: that it
/// opened, then its data, then that it closed.
pub proof fn surfaced_in_order<A>(remote: A, s: SessionView, i: int, j: int)
    requires
        0 <= i <= j < surfaced(remote, s).len(),
    ensures
        rank(surfaced(remote, s)[i]) <= rank(surfaced(remote, s)[j]),
        remote_of(surfaced(remote, s)[i]) == remote,
{
    openings_open(remote, s.events);
    closings_close(remote, s.events);
    let o = openings(remote, s.events);
    let d = arrivals(remote, s.received);
    let c = closings(remote, s.events);
    let all = surfaced(remote, s);
    assert forall|k: int| 0 <= k < all.len() implies rank(#[trigger] all[k]) == (if k < o.len() {
        0int
    } else if k < o.len() + d.len() {
        1
    } else {
        2
    }) && remote_of(all[k]) == remote by {
        if k < o.len() {
            assert(all[k] == o[k]);
        } else if k < o.len() + d.len() {
            assert(all[k] == d[k - o.len()]);
        } else {
            assert(all[k] == c[k - o.len() - d.len()]);
        }
    }
}

proof fn opening_surfaces<A>(remote: A, events: Seq<SessionEvent>)
    requires
        events.len() > 0,
        events[0] == SessionEvent::Opened,
    ensures
        openings(remote, events).len() > 0,
    decreases events.len(),
{
    if events.len() > 1 {
        assert(events.drop_last()[0] == events[0]);
        opening_surfaces(remote, events.drop_last());
    }
}

/// No data of a session is surfaced before it was surfaced that the session opened. Of
/// the session, the events `taken` and the data `handed` were surfaced before.
pub proof fn opening_is_surfaced_before_data<A>(
    remote: A,
    s: SessionView,
    taken: Seq<SessionEvent>,
    handed: Seq<Seq<u8>>,
    j: int,
)
    requires
        opened_before_data(s, taken, handed),
        0 <= j < surfaced(remote, s).len(),
        surfaced(remote, s)[j] is DataReceived,
    ensures
        taken.len() > 0 && taken[0] == SessionEvent::Opened || exists|i: int|
            0 <= i < j && #[trigger] surfaced(remote, s)[i] == (SocketEventView::SessionOpened {
                remote,
            }),
{
    openings_open(remote, s.events);
    closings_close(remote, s.events);
    let o = openings(remote, s.events);
    let d = arrivals(remote, s.received);
    let c = closings(remote, s.events);
    let all = surfaced(remote, s);
    if j < o.len() {
        assert(all[j] == o[j]);
    } else if j >= o.len() + d.len() {
        assert(all[j] == c[j - o.len() - d.len()]);
        assert(rank(all[j]) == 2);
    } else {
        assert(s.received.len() > 0);
        if taken.len() == 0 {
            assert((taken + s.events)[0] == s.events[0]);
            opening_surfaces(remote, s.events);
            assert(all[0] == o[0]);
        } else {
            assert((taken + s.events)[0] == taken[0]);
        }
    }
}

proof fn holder_names<A>(sessions: Seq<(A, SessionView)>, remap: RemapConnection)
    ensures
        match holder(sessions, remap) {
            Some(k) => 0 <= k < sessions.len() && named_by(sessions[k].1, remap),
            None => forall|k: int|
                0 <= k < sessions.len() ==> !named_by((#[trigger] sessions[k]).1, remap),
        },
    decreases sessions.len(),
{
    if sessions.len() > 0 {
        let before = sessions.drop_last();
        holder_names(before, remap);
        assert forall|k: int| holder(sessions, remap) is None && 0 <= k < sessions.len() implies
            !named_by((#[trigger] sessions[k]).1, remap) by {
            if k < before.len() {
                assert(before[k] == sessions[k]);
            }
        }
    }
}

/// A session moves to another remote only where that is allowed, only on a packet that
/// names its ID and CRC seed, and only to a remote on the same host; then it moves as it
/// is. Otherwise a packet that would move it changes nothing.
pub proof fn remap_stays_on_host<A: RemoteAddr>(
    v: MuxView<A>,
    from: A,
    datagram: Seq<u8>,
    now: Instant,
)
    requires
        v.wf(),
        v.session_of(from) is None,
        leading_op_code(datagram) == Some(OpCode::RemapConnection),
    ensures
        ({
            let r = v.processed(from, datagram, now);
            ||| r == v
            ||| exists|k: int|
                {
                    &&& 0 <= k < v.sessions.len()
                    &&& v.config.allow_port_remaps
                    &&& (#[trigger] v.sessions[k]).0.is_same_host(&from)
                    &&& remap_of(datagram) matches Ok(remap) && named_by(v.sessions[k].1, remap)
                    &&& r.sessions == v.sessions.remove(k).push((from, v.sessions[k].1))
                    &&& r.session_of(from) == Some(v.sessions[k].1)
                    &&& r.session_of(v.sessions[k].0) is None
                }
        }),
{
    match remap_of(datagram) {
        Err(_) => {},
        Ok(remap) => {
            holder_names(v.sessions, remap);
            match holder(v.sessions, remap) {
                None => {},
                Some(k) => {
                    let (old, s) = v.sessions[k];
                    if v.config.allow_port_remaps && old != from && old.is_same_host(&from) {
                        move_is_exact(v, k, from);
                    }
                },
            }
        },
    }
}

/// A session that was moved is found under its new remote, and not under the old one.
proof fn move_is_exact<A: RemoteAddr>(v: MuxView<A>, k: int, from: A)
    requires
        distinct(v.sessions),
        0 <= k < v.sessions.len(),
        place_of(v.sessions, from) is None,
    ensures
        ({
            let r = MuxView {
                sessions: v.sessions.remove(k).push((from, v.sessions[k].1)),
                ..v
            };
            &&& r.session_of(from) == Some(v.sessions[k].1)
            &&& r.session_of(v.sessions[k].0) is None
        }),
{
    let rest = v.sessions.remove(k);
    let sessions = rest.push((from, v.sessions[k].1));
    remove_keeps_distinct(v.sessions, k);
    place_missing(rest, from);
    push_keeps_distinct(rest, from, v.sessions[k].1);
    place_found(sessions, rest.len() as int);
    assert(v.sessions[k].0 != from);
    place_missing(sessions, v.sessions[k].0);
}

/// The only session with the ID and CRC seed of a remap packet moves to the remote that
/// the packet came from, where that is allowed and on the same host.
pub proof fn remap_is_honoured<A: RemoteAddr>(
    v: MuxView<A>,
    k: int,
    remap: RemapConnection,
    from: A,
    datagram: Seq<u8>,
    now: Instant,
)
    requires
        v.wf(),
        v.session_of(from) is None,
        leading_op_code(datagram) == Some(OpCode::RemapConnection),
        remap_of(datagram) is Ok,
        remap_of(datagram)->Ok_0 == remap,
        v.config.allow_port_remaps,
        0 <= k < v.sessions.len(),
        named_by(v.sessions[k].1, remap),
        forall|j: int|
            0 <= j < v.sessions.len() && j != k ==> !named_by(
                (#[trigger] v.sessions[j]).1,
                remap,
            ),
        v.sessions[k].0.is_same_host(&from),
    ensures
        v.processed(from, datagram, now).session_of(from) == Some(v.sessions[k].1),
        v.processed(from, datagram, now).session_of(v.sessions[k].0) is None,
{
    holder_names(v.sessions, remap);
    assert(named_by(v.sessions[k].1, remap));
    assert(holder(v.sessions, remap) == Some(k));
    assert(v.sessions[k].0 != from) by {
        if v.sessions[k].0 == from {
            place_found(v.sessions, k);
        }
    }
    move_is_exact(v, k, from);
}

proof fn tick_reaches_some<A: RemoteAddr>(v: MuxView<A>, k: int, n: int, now: Instant)
    requires
        distinct(v.sessions),
        0 <= k < v.sessions.len(),
        0 <= n <= v.sessions.len(),
    ensures
        distinct(v.ticked_some(n, now).sessions),
        v.ticked_some(n, now).session_of(v.sessions[k].0) == (if k >= n {
            Some(v.sessions[k].1)
        } else if v.sessions[k].1.ticked(now).state == SessionState::Terminated {
            None
        } else {
            Some(drained(v.sessions[k].1.ticked(now)))
        }),
    decreases n,
{
    if n == 0 {
        place_found(v.sessions, k);
    } else {
        let (remote, s) = v.sessions[n - 1];
        tick_reaches_some(v, k, n - 1, now);
        settling_is_local(v.ticked_some(n - 1, now), remote, s.ticked(now), v.sessions[k].0);
        if k != n - 1 {
            assert(v.sessions[k].0 != v.sessions[n - 1].0);
        }
    }
}

/// A tick of a multiplexer ticks every session once, on its own, and drops those that it
/// ends.
pub proof fn tick_reaches_every_session<A: RemoteAddr>(v: MuxView<A>, k: int, now: Instant)
    requires
        v.wf(),
        0 <= k < v.sessions.len(),
    ensures
        v.ticked(now).session_of(v.sessions[k].0) == (if v.sessions[k].1.ticked(now).state
            == SessionState::Terminated {
            None
        } else {
            Some(drained(v.sessions[k].1.ticked(now)))
        }),
{
    tick_reaches_some(v, k, v.sessions.len() as int, now);
}

} // verus!
