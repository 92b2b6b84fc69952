//! What a multiplexer does with datagrams, data and the time, told by the session of each
//! remote and by what comes out.
use vstd::prelude::*;

use crate::buffer::content;
use crate::packets::{remap_is_read, remap_of, RemapConnection};
use crate::protocol::{op_codes_on_the_wire, DisconnectReason};
use crate::session::model::SessionView;
use crate::session::{SessionEvent, SessionMode, SessionState};
use crate::socket::address::SocketAddr;
use crate::socket::laws::{remap_is_honoured, settling_is_local, tick_reaches_every_session};
use crate::socket::model::{
    closings, distinct, holder, named_by, openings, place_found, place_of, tagged, ConfigView,
    MuxView, SocketEventView,
};
use crate::socket::{datagram_views, event_views, RemoteAddr, SocketEvent};
use crate::time::Instant;
use crate::wire::{from_be16, from_be16_digits, number16, number32};

verus! {

/// What is told of a session with `remote` that holds these events and this data: once for
/// each time that it opened, then each piece of data in order, and then for each time that
/// it closed, with the reason.
pub open spec fn told<A>(remote: A, events: Seq<SessionEvent>, data: Seq<Seq<u8>>) -> Seq<
    SocketEventView<A>,
> {
    let opened = events.filter(|e: SessionEvent| e is Opened);
    let closed = events.filter(|e: SessionEvent| e is Closed);
    Seq::new(opened.len(), |k: int| SocketEventView::SessionOpened { remote }) + Seq::new(
        data.len(),
        |k: int| SocketEventView::DataReceived { remote, data: data[k] },
    ) + Seq::new(
        closed.len(),
        |k: int| SocketEventView::SessionClosed { remote, reason: closed[k]->Closed_0 },
    )
}

/// Datagrams, each with the remote that it goes to.
pub open spec fn addressed<A>(remote: A, datagrams: Seq<Seq<u8>>) -> Seq<(A, Seq<u8>)> {
    datagrams.map_values(|d: Seq<u8>| (remote, d))
}

proof fn openings_are_told<A>(remote: A, events: Seq<SessionEvent>)
    ensures
        openings(remote, events) == Seq::new(
            events.filter(|e: SessionEvent| e is Opened).len(),
            |k: int| SocketEventView::SessionOpened { remote },
        ),
    decreases events.len(),
{
    reveal(Seq::filter);
    if events.len() > 0 {
        openings_are_told(remote, events.drop_last());
    }
    assert(openings(remote, events) =~= Seq::new(
        events.filter(|e: SessionEvent| e is Opened).len(),
        |k: int| SocketEventView::SessionOpened { remote },
    ));
}

proof fn closings_are_told<A>(remote: A, events: Seq<SessionEvent>)
    ensures
        ({
            let closed = events.filter(|e: SessionEvent| e is Closed);
            closings(remote, events) == Seq::new(
                closed.len(),
                |k: int| SocketEventView::SessionClosed { remote, reason: closed[k]->Closed_0 },
            )
        }),
    decreases events.len(),
{
    reveal(Seq::filter);
    let closed = events.filter(|e: SessionEvent| e is Closed);
    if events.len() > 0 {
        closings_are_told(remote, events.drop_last());
    }
    assert(closings(remote, events) =~= Seq::new(
        closed.len(),
        |k: int| SocketEventView::SessionClosed { remote, reason: closed[k]->Closed_0 },
    ));
}

/// Whether `r` is the multiplexer `v` once its session with `remote` came to be `s`:
/// everything was taken from the session, in order, and it is kept unless it ended. All
/// other sessions are as they were.
pub open spec fn session_came_to_be<A: RemoteAddr>(
    v: MuxView<A>,
    r: MuxView<A>,
    remote: A,
    s: SessionView,
) -> bool {
    &&& r.outgoing == v.outgoing + addressed(remote, s.outgoing)
    &&& r.events == v.events + told(remote, s.events, s.received)
    &&& r.config == v.config
    &&& r.session_of(remote) == (if s.state == SessionState::Terminated {
        None
    } else {
        Some(
            SessionView {
                outgoing: Seq::empty(),
                received: Seq::empty(),
                events: Seq::empty(),
                ..s
            },
        )
    })
    &&& forall|other: A| other != remote ==> #[trigger] r.session_of(other) == v.session_of(other)
}

proof fn settling_is_what_came_to_be<A: RemoteAddr>(v: MuxView<A>, remote: A, s: SessionView)
    requires
        distinct(v.sessions),
    ensures
        session_came_to_be(v, v.settled(remote, s), remote, s),
        v.settled(remote, s).next_seed == v.next_seed,
        distinct(v.settled(remote, s).sessions),
{
    let r = v.settled(remote, s);
    settling_is_local(v, remote, s, remote);
    assert forall|other: A| other != remote implies #[trigger] r.session_of(other) == v.session_of(
        other,
    ) by {
        settling_is_local(v, remote, s, other);
    }
    openings_are_told(remote, s.events);
    closings_are_told(remote, s.events);
    assert(tagged(remote, s.outgoing) =~= addressed(remote, s.outgoing));
    assert(r.events =~= v.events + told(remote, s.events, s.received));
}

/// A new multiplexer has no sessions, nothing to send and nothing to tell.
pub proof fn new_multiplexer_is_empty<A: RemoteAddr>(config: ConfigView, remote: A)
    ensures
        ({
            let v = MuxView::<A>::initial(config);
            &&& v.config == config
            &&& v.next_seed == config.base_rng_seed
            &&& v.session_of(remote) is None
            &&& v.sessions.len() == 0
            &&& v.outgoing.len() == 0
            &&& v.events.len() == 0
        }),
{
}

/// A datagram from a remote with a session is processed by that session.
pub proof fn datagram_goes_to_its_session<A: RemoteAddr>(
    v: MuxView<A>,
    remote: A,
    s: SessionView,
    datagram: Seq<u8>,
    now: Instant,
)
    requires
        v.wf(),
        v.session_of(remote) == Some(s),
    ensures
        session_came_to_be(
            v,
            v.processed(remote, datagram, now),
            remote,
            s.processed(datagram, now),
        ),
        v.processed(remote, datagram, now).next_seed == v.next_seed,
{
    settling_is_what_came_to_be(v, remote, s.processed(datagram, now));
}

/// A datagram from a remote without a session that starts with the number of a request makes
/// a new server session, with the next seed, which processes it. With any other number but
/// that of a remap, and with none, it changes nothing.
pub proof fn request_makes_session<A: RemoteAddr>(
    v: MuxView<A>,
    remote: A,
    datagram: Seq<u8>,
    now: Instant,
)
    requires
        v.wf(),
        v.session_of(remote) is None,
    ensures
        ({
            let r = v.processed(remote, datagram, now);
            let n = number16(datagram, 0);
            let s = SessionView::initial(
                SessionMode::Server,
                v.config.params,
                v.config.cipher,
                v.next_seed,
                now,
            );
            if datagram.len() >= 2 && n == 0x01 {
                &&& session_came_to_be(v, r, remote, s.processed(datagram, now))
                &&& r.next_seed as int == (v.next_seed + 1) % 0x1_0000_0000_0000_0000
            } else {
                datagram.len() >= 2 && n == 0x1E || r == v
            }
        }),
{
    from_be16_digits(datagram);
    op_codes_on_the_wire(from_be16(datagram));
    let s = v.new_session(SessionMode::Server, now);
    let used = v.seed_used();
    settling_is_what_came_to_be(used, remote, s.processed(datagram, now));
    assert forall|other: A| used.session_of(other) == v.session_of(other) by {}
}

/// Connecting makes a new client session, with the next seed, which asks the remote. It
/// takes the place of a session that the remote has.
pub proof fn connecting_makes_session<A: RemoteAddr>(v: MuxView<A>, remote: A, now: Instant)
    requires
        v.wf(),
    ensures
        ({
            let r = v.connected(remote, now);
            let s = SessionView::initial(
                SessionMode::Client,
                v.config.params,
                v.config.cipher,
                v.next_seed,
                now,
            );
            &&& session_came_to_be(v, r, remote, s.requested())
            &&& r.next_seed as int == (v.next_seed + 1) % 0x1_0000_0000_0000_0000
        }),
{
    let s = v.new_session(SessionMode::Client, now);
    let used = v.seed_used();
    settling_is_what_came_to_be(used, remote, s.requested());
    assert forall|other: A| used.session_of(other) == v.session_of(other) by {}
}

/// Data, and a wish to end the session with the remote being told, go to the session with
/// the remote. Without one nothing changes.
pub proof fn commands_go_to_session<A: RemoteAddr>(
    v: MuxView<A>,
    remote: A,
    data: Seq<u8>,
    reason: DisconnectReason,
    now: Instant,
)
    requires
        v.wf(),
    ensures
        match v.session_of(remote) {
            Some(s) => {
                &&& v.enqueued(remote, data).next_seed == v.next_seed
                &&& v.terminated(remote, reason, now).next_seed == v.next_seed
                &&& session_came_to_be(v, v.enqueued(remote, data), remote, s.enqueued(data))
                &&& session_came_to_be(
                    v,
                    v.terminated(remote, reason, now),
                    remote,
                    s.terminated(reason, true, false, now),
                )
            },
            None => v.enqueued(remote, data) == v && v.terminated(remote, reason, now) == v,
        },
{
    match v.session_of(remote) {
        Some(s) => {
            settling_is_what_came_to_be(v, remote, s.enqueued(data));
            settling_is_what_came_to_be(v, remote, s.terminated(reason, true, false, now));
        },
        None => {},
    }
}

/// What the sessions send at a tick, in the order of the sessions.
pub open spec fn sent_at_tick<A>(sessions: Seq<(A, SessionView)>, now: Instant) -> Seq<
    (A, Seq<u8>),
> {
    Seq::new(
        sessions.len(),
        |k: int| addressed(sessions[k].0, sessions[k].1.ticked(now).outgoing),
    ).flatten_alt()
}

/// What is told of the sessions at a tick, in the order of the sessions.
pub open spec fn told_at_tick<A>(sessions: Seq<(A, SessionView)>, now: Instant) -> Seq<
    SocketEventView<A>,
> {
    Seq::new(
        sessions.len(),
        |k: int|
            told(
                sessions[k].0,
                sessions[k].1.ticked(now).events,
                sessions[k].1.ticked(now).received,
            ),
    ).flatten_alt()
}

proof fn some_ticks_collect<A: RemoteAddr>(v: MuxView<A>, n: int, now: Instant)
    requires
        distinct(v.sessions),
        0 <= n <= v.sessions.len(),
    ensures
        ({
            let r = v.ticked_some(n, now);
            &&& r.outgoing == v.outgoing + sent_at_tick(v.sessions.take(n), now)
            &&& r.events == v.events + told_at_tick(v.sessions.take(n), now)
            &&& r.config == v.config
            &&& r.next_seed == v.next_seed
            &&& distinct(r.sessions)
        }),
    decreases n,
{
    let done = v.sessions.take(n);
    let sent = Seq::new(
        done.len(),
        |k: int| addressed(done[k].0, done[k].1.ticked(now).outgoing),
    );
    let said = Seq::new(
        done.len(),
        |k: int|
            told(done[k].0, done[k].1.ticked(now).events, done[k].1.ticked(now).received),
    );
    if n == 0 {
        assert(v.outgoing + sent_at_tick(done, now) =~= v.outgoing);
        assert(v.events + told_at_tick(done, now) =~= v.events);
    } else {
        let before = v.sessions.take(n - 1);
        let (remote, s) = v.sessions[n - 1];
        some_ticks_collect(v, n - 1, now);
        settling_is_what_came_to_be(v.ticked_some(n - 1, now), remote, s.ticked(now));
        assert(sent.drop_last() =~= Seq::new(
            before.len(),
            |k: int| addressed(before[k].0, before[k].1.ticked(now).outgoing),
        ));
        assert(said.drop_last() =~= Seq::new(
            before.len(),
            |k: int|
                told(before[k].0, before[k].1.ticked(now).events, before[k].1.ticked(now).received),
        ));
        let r = v.ticked_some(n, now);
        assert(r.outgoing =~= v.outgoing + sent_at_tick(done, now));
        assert(r.events =~= v.events + told_at_tick(done, now));
    }
}

/// A tick sends and tells what each session sends and has to tell at it, one session after
/// the other, and leaves each session as its own tick leaves it, unless it ended.
pub proof fn tick_collects_from_every_session<A: RemoteAddr>(v: MuxView<A>, now: Instant)
    requires
        v.wf(),
    ensures
        ({
            let r = v.ticked(now);
            &&& r.outgoing == v.outgoing + sent_at_tick(v.sessions, now)
            &&& r.events == v.events + told_at_tick(v.sessions, now)
            &&& r.config == v.config
            &&& r.next_seed == v.next_seed
            &&& forall|k: int|
                0 <= k < v.sessions.len() ==> is_left_by_tick(r, #[trigger] v.sessions[k], now)
        }),
{
    some_ticks_collect(v, v.sessions.len() as int, now);
    assert(v.sessions.take(v.sessions.len() as int) =~= v.sessions);
    let r = v.ticked(now);
    assert forall|k: int| 0 <= k < v.sessions.len() implies is_left_by_tick(
        r,
        #[trigger] v.sessions[k],
        now,
    ) by {
        tick_reaches_every_session(v, k, now);
    }
}

/// Whether a multiplexer holds of a session what a tick leaves of it.
pub open spec fn is_left_by_tick<A: RemoteAddr>(
    r: MuxView<A>,
    session: (A, SessionView),
    now: Instant,
) -> bool {
    let s = session.1.ticked(now);
    r.session_of(session.0) == (if s.state == SessionState::Terminated {
        None
    } else {
        Some(
            SessionView {
                outgoing: Seq::empty(),
                received: Seq::empty(),
                events: Seq::empty(),
                ..s
            },
        )
    })
}

proof fn nobody_holds<A>(sessions: Seq<(A, SessionView)>, datagram: Seq<u8>)
    requires
        remap_of(datagram) is Ok,
        forall|k: int|
            0 <= k < sessions.len() ==> !((#[trigger] sessions[k]).1.session_id == number32(
                datagram,
                2,
            ) && sessions[k].1.params.crc_seed == number32(datagram, 6)),
    ensures
        holder(sessions, remap_of(datagram)->Ok_0) is None,
    decreases sessions.len(),
{
    remap_is_read(datagram);
    if sessions.len() > 0 {
        let before = sessions.drop_last();
        assert forall|k: int| 0 <= k < before.len() implies !((
        #[trigger] before[k]).1.session_id == number32(datagram, 2)
            && before[k].1.params.crc_seed == number32(datagram, 6)) by {
            assert(before[k] == sessions[k]);
        }
        nobody_holds(before, datagram);
        assert(!named_by(sessions[sessions.len() - 1].1, remap_of(datagram)->Ok_0));
    }
}

/// A remap changes nothing where remaps are not allowed, where it has less than ten bytes, or
/// where it names no session by its ID and CRC seed.
pub proof fn remap_is_passed_over<A: RemoteAddr>(
    v: MuxView<A>,
    from: A,
    datagram: Seq<u8>,
    now: Instant,
)
    requires
        v.session_of(from) is None,
        number16(datagram, 0) == 0x1E,
        ({
            ||| !v.config.allow_port_remaps
            ||| datagram.len() < 10
            ||| forall|k: int|
                0 <= k < v.sessions.len() ==> !((#[trigger] v.sessions[k]).1.session_id == number32(
                    datagram,
                    2,
                ) && v.sessions[k].1.params.crc_seed == number32(datagram, 6))
        }),
    ensures
        v.processed(from, datagram, now) == v,
{
    from_be16_digits(datagram);
    op_codes_on_the_wire(from_be16(datagram));
    remap_is_read(datagram);
    if datagram.len() >= 10 && v.config.allow_port_remaps {
        nobody_holds(v.sessions, datagram);
    }
}

/// A remap moves the session that it names by its ID and CRC seed, where it is the only one,
/// just where the remote that it comes from is on the same host.
pub proof fn remap_moves_session<A: RemoteAddr>(
    v: MuxView<A>,
    k: int,
    from: A,
    datagram: Seq<u8>,
    now: Instant,
)
    requires
        v.wf(),
        v.session_of(from) is None,
        v.config.allow_port_remaps,
        datagram.len() >= 10,
        number16(datagram, 0) == 0x1E,
        0 <= k < v.sessions.len(),
        forall|j: int|
            0 <= j < v.sessions.len() ==> (((#[trigger] v.sessions[j]).1.session_id == number32(
                datagram,
                2,
            ) && v.sessions[j].1.params.crc_seed == number32(datagram, 6)) <==> j == k),
    ensures
        ({
            let r = v.processed(from, datagram, now);
            if v.sessions[k].0.is_same_host(&from) {
                &&& r.session_of(from) == Some(v.sessions[k].1)
                &&& r.session_of(v.sessions[k].0) is None
                &&& r == (MuxView {
                    sessions: v.sessions.remove(k).push((from, v.sessions[k].1)),
                    ..v
                })
            } else {
                r == v
            }
        }),
{
    from_be16_digits(datagram);
    op_codes_on_the_wire(from_be16(datagram));
    remap_is_read(datagram);
    let remap = remap_of(datagram)->Ok_0;
    assert forall|j: int| 0 <= j < v.sessions.len() implies named_by(
        (#[trigger] v.sessions[j]).1,
        remap,
    ) == (j == k) by {}
    only_one_holds(v.sessions, remap, k);
    if v.sessions[k].0.is_same_host(&from) {
        remap_is_honoured(v, k, remap, from, datagram, now);
        assert(v.sessions[k].0 != from);
    }
}

proof fn only_one_holds<A>(
    sessions: Seq<(A, SessionView)>,
    remap: RemapConnection,
    k: int,
)
    requires
        0 <= k < sessions.len(),
        forall|j: int|
            0 <= j < sessions.len() ==> named_by((#[trigger] sessions[j]).1, remap) == (j == k),
    ensures
        holder(sessions, remap) == Some(k),
    decreases sessions.len(),
{
    let before = sessions.drop_last();
    assert forall|j: int| 0 <= j < before.len() implies named_by(
        (#[trigger] before[j]).1,
        remap,
    ) == (j == k) by {
        assert(before[j] == sessions[j]);
    }
    if k < before.len() {
        only_one_holds(before, remap, k);
    } else {
        none_holds(before, remap);
        assert(named_by(sessions[k].1, remap));
    }
}

proof fn none_holds<A>(sessions: Seq<(A, SessionView)>, remap: RemapConnection)
    requires
        forall|j: int| 0 <= j < sessions.len() ==> !named_by((#[trigger] sessions[j]).1, remap),
    ensures
        holder(sessions, remap) is None,
    decreases sessions.len(),
{
    if sessions.len() > 0 {
        let before = sessions.drop_last();
        assert forall|j: int| 0 <= j < before.len() implies !named_by(
            (#[trigger] before[j]).1,
            remap,
        ) by {
            assert(before[j] == sessions[j]);
        }
        none_holds(before, remap);
        assert(!named_by(sessions[sessions.len() - 1].1, remap));
    }
}

/// Two socket addresses are on the same host just where their IP addresses are the same,
/// whatever their ports.
pub proof fn host_is_the_ip(a: SocketAddr, b: SocketAddr)
    ensures
        a.is_same_host(&b) <==> a.ip == b.ip,
{
}

/// A multiplexer tells of a session that it runs just where the remote has one that does, and
/// takes in a datagram where the session of the remote does, or any of less than four
/// gibibytes without one.
pub proof fn what_is_told_of_a_remote<A: RemoteAddr>(v: MuxView<A>, remote: A, datagram: Seq<u8>)
    ensures
        match v.session_of(remote) {
            Some(s) => {
                &&& v.is_running(remote) <==> s.state == SessionState::Running
                &&& v.ready_for(remote, datagram) <==> s.ready(datagram)
            },
            None => {
                &&& !v.is_running(remote)
                &&& v.ready_for(remote, datagram) <==> datagram.len() < 0x1_0000_0000
            },
        },
{
}

/// The session of a remote is the one that stands under it.
pub proof fn session_stands_under_remote<A: RemoteAddr>(v: MuxView<A>, remote: A, s: SessionView)
    requires
        distinct(v.sessions),
    ensures
        v.session_of(remote) == Some(s) <==> v.sessions.contains((remote, s)),
{
    if v.sessions.contains((remote, s)) {
        let k = choose|k: int| 0 <= k < v.sessions.len() && v.sessions[k] == (remote, s);
        place_found(v.sessions, k);
    }
    match place_of(v.sessions, remote) {
        Some(j) => {
            assert(v.sessions[j] == (remote, v.session_of(remote)->0));
        },
        None => {},
    }
}

/// What is taken from a multiplexer are the datagrams that it held, one by one, each for the
/// remote that it was for.
pub proof fn datagrams_are_taken_one_by_one<A>(datagrams: Seq<(A, bytes::Bytes)>, k: int)
    ensures
        datagram_views(datagrams).len() == datagrams.len(),
        0 <= k < datagrams.len() ==> datagram_views(datagrams)[k] == (
            datagrams[k].0,
            content(datagrams[k].1),
        ),
{
}

/// What is taken from a multiplexer are the events that it held, one by one, as what they
/// are.
pub proof fn events_are_taken_one_by_one<A>(events: Seq<SocketEvent<A>>, k: int)
    ensures
        event_views(events).len() == events.len(),
        0 <= k < events.len() ==> event_views(events)[k] == (match events[k] {
            SocketEvent::SessionOpened { remote } => SocketEventView::SessionOpened { remote },
            SocketEvent::DataReceived { remote, data } => SocketEventView::DataReceived {
                remote,
                data: content(data),
            },
            SocketEvent::SessionClosed { remote, reason } => SocketEventView::SessionClosed {
                remote,
                reason,
            },
        }),
{
}

} // verus!
