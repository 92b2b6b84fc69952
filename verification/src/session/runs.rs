//! What holds of a session over a whole run of calls, and of the two sessions at the two
//! ends.
use vstd::prelude::*;

use crate::channel::delivery::{
    accept_all, all_carried, arrivals, delivered_is_prefix, delivery_in_order, follows,
    initial_follows, stream_of, stream_round_trip, tellable, ticks_and_takes_follow,
};
use crate::channel::input::{handle_keeps, ArrivalView, InputView};
use crate::channel::output::QueuedView;
use crate::channel::schedule::{arrived, handling_holds, held, packet_of, packets_on_the_wire};
use crate::packets::disconnect_of;
use crate::protocol::{contextless, DisconnectReason, OpCode};
use crate::session::laws::{
    framed_packet_is_handled, reliable_data_reaches_channel, session_delivers_in_order,
};
use crate::session::model::{ParamsView, SessionView};
use crate::session::{SessionEvent, SessionState, SoeSession};
use crate::time::Instant;

verus! {

/// A call of a session.
pub enum Call {
    /// `send_session_request`.
    Request,
    /// `enqueue_data`.
    Enqueue(Seq<u8>),
    /// `terminate`.
    Terminate {
        /// Why.
        reason: DisconnectReason,
        /// Whether the remote is told.
        notify_remote: bool,
        /// When.
        now: Instant,
    },
    /// `process_incoming`.
    Process {
        /// The datagram.
        datagram: Seq<u8>,
        /// When.
        now: Instant,
    },
    /// `run_tick`.
    Tick(Instant),
    /// `take_outgoing`.
    TakeOutgoing,
    /// `take_received`.
    TakeReceived,
    /// `take_events`.
    TakeEvents,
}

/// A session, with all that was taken from it so far.
#[verifier::ext_equal]
pub struct Run {
    /// The session.
    pub session: SessionView,
    /// The datagrams taken.
    pub sent: Seq<Seq<u8>>,
    /// The application data taken.
    pub handed: Seq<Seq<u8>>,
    /// The events taken.
    pub events: Seq<SessionEvent>,
}

impl Run {
    /// A session from which nothing was taken.
    pub open spec fn begun(session: SessionView) -> Run {
        Run { session, sent: Seq::empty(), handed: Seq::empty(), events: Seq::empty() }
    }

    /// The session once it was called.
    pub open spec fn called(self, call: Call) -> Run {
        let v = self.session;
        match call {
            Call::Request => Run { session: v.requested(), ..self },
            Call::Enqueue(data) => Run { session: v.enqueued(data), ..self },
            Call::Terminate { reason, notify_remote, now } => Run {
                session: v.terminated(reason, notify_remote, false, now),
                ..self
            },
            Call::Process { datagram, now } => Run { session: v.processed(datagram, now), ..self },
            Call::Tick(now) => Run { session: v.ticked(now), ..self },
            Call::TakeOutgoing => Run {
                session: SessionView { outgoing: Seq::empty(), ..v },
                sent: self.sent + v.outgoing,
                ..self
            },
            Call::TakeReceived => Run {
                session: SessionView { received: Seq::empty(), ..v },
                handed: self.handed + v.received,
                ..self
            },
            Call::TakeEvents => Run {
                session: SessionView { events: Seq::empty(), ..v },
                events: self.events + v.events,
                ..self
            },
        }
    }

    /// The session once it was called some times.
    pub open spec fn after(self, calls: Seq<Call>) -> Run
        decreases calls.len(),
    {
        if calls.len() == 0 {
            self
        } else {
            self.after(calls.drop_last()).called(calls.last())
        }
    }
}

/// Sessions depend on nothing but how they were made and what they were called with: two
/// sessions that agree, and are called alike, agree ever after, in what they hold and in
/// all that was taken from them.
pub proof fn equal_runs_stay_equal(s: SoeSession, t: SoeSession, calls: Seq<Call>)
    requires
        s@ == t@,
    ensures
        Run::begun(s@).after(calls) == Run::begun(t@).after(calls),
{
}

/// Whether a packet may get to the input channel: it is reliable data, or a bundle, which
/// may hold some.
pub open spec fn brings_data(op: OpCode) -> bool {
    op == OpCode::ReliableData || op == OpCode::ReliableDataFragment || op
        == OpCode::MultiPacket
}

/// Whether two parties agree on the CRC and on compression.
pub open spec fn agree(a: ParamsView, b: ParamsView) -> bool {
    &&& a.crc_seed == b.crc_seed
    &&& a.crc_length == b.crc_length
    &&& a.is_compression_enabled == b.is_compression_enabled
}

/// Whether a datagram is a contextual packet that does not get to the input channel.
pub open spec fn is_other_packet(
    params: ParamsView,
    datagram: Seq<u8>,
    op: OpCode,
    payload: Seq<u8>,
) -> bool {
    &&& !contextless(op)
    &&& !brings_data(op)
    &&& datagram == params.frame(op, payload)
}

/// The datagram of a packet of the stream.
pub open spec fn stream_datagram(params: ParamsView, stream: Seq<QueuedView>, k: int) -> Seq<u8> {
    params.frame(stream[k].packet().op_code, stream[k].packet().payload)
}

/// Whether a call is one that a session may get whose remote sends `stream`: `which` is
/// the packet of the stream that it is given, if any. Such a packet passes for no other.
pub open spec fn from_peer(
    v: SessionView,
    params: ParamsView,
    stream: Seq<QueuedView>,
    call: Call,
    which: Option<int>,
) -> bool {
    match (call, which) {
        (Call::Process { datagram, now }, Some(k)) => {
            &&& 0 <= k < stream.len()
            &&& datagram == stream_datagram(params, stream, k)
            &&& tellable(v.input, k)
        },
        (Call::Process { datagram, now }, None) => exists|op: OpCode, payload: Seq<u8>|
            is_other_packet(params, datagram, op, payload),
        (_, Some(_)) => false,
        (_, None) => true,
    }
}

/// Whether the `i`th of some calls is one that a session may get whose remote sends
/// `stream`.
pub open spec fn from_peer_at(
    r: Run,
    params: ParamsView,
    stream: Seq<QueuedView>,
    calls: Seq<Call>,
    which: Seq<Option<int>>,
    i: int,
) -> bool {
    from_peer(r.after(calls.take(i)).session, params, stream, calls[i], which[i])
}

/// Whether all of some calls are such.
pub open spec fn all_from_peer(
    r: Run,
    params: ParamsView,
    stream: Seq<QueuedView>,
    calls: Seq<Call>,
    which: Seq<Option<int>>,
) -> bool {
    &&& which.len() == calls.len()
    &&& forall|i: int|
        0 <= i < calls.len() ==> #[trigger] from_peer_at(r, params, stream, calls, which, i)
}

/// Whether the `i`th of some calls hands over the packet `k`, no further ahead of the one
/// that is waited for than the window allows.
pub open spec fn reaches_window_at(
    r: Run,
    calls: Seq<Call>,
    which: Seq<Option<int>>,
    k: int,
    i: int,
) -> bool {
    let input = r.after(calls.take(i)).session.input;
    which[i] == Some(k) && k <= input.window_start + input.config.max_queued_incoming
}

/// Whether the packet `k` is handed over at least once within the window.
pub open spec fn reaches_window(
    r: Run,
    calls: Seq<Call>,
    which: Seq<Option<int>>,
    k: int,
) -> bool {
    exists|i: int| 0 <= i < calls.len() && #[trigger] reaches_window_at(r, calls, which, k, i)
}

/// Whether a session receives a stream, and has handed over or holds ready what came out
/// of it.
pub open spec fn receives(r: Run, start: InputView, items: Seq<ArrivalView>) -> bool {
    &&& follows(r.session.input, r.handed + r.session.received, start, items)
    &&& r.session.input.app_data == Seq::<Seq<u8>>::empty()
    &&& r.session.state != SessionState::Negotiating
}

/// Whether two input channels wait for the same packet and stash the same ones.
spec fn same_progress(a: InputView, b: InputView) -> bool {
    &&& a.window_start == b.window_start
    &&& a.stash == b.stash
    &&& a.config == b.config
}

/// What is left of an input channel once everything was taken from it is on the stream.
proof fn emptied_follows(
    v: InputView,
    taken: Seq<Seq<u8>>,
    start: InputView,
    items: Seq<ArrivalView>,
    now: Instant,
)
    requires
        follows(v, taken, start, items),
    ensures
        follows(
            InputView { outgoing: Seq::empty(), app_data: Seq::empty(), ..v },
            taken + v.app_data,
            start,
            items,
        ),
{
    ticks_and_takes_follow(v, taken, start, items, now);
    let rest = InputView { app_data: Seq::empty(), ..v };
    ticks_and_takes_follow(rest, taken + v.app_data, start, items, now);
}

proof fn flush_receives(
    v: SessionView,
    handed: Seq<Seq<u8>>,
    start: InputView,
    items: Seq<ArrivalView>,
    now: Instant,
)
    requires
        follows(v.input, handed + v.received, start, items),
        v.is_open() || v.input.app_data == Seq::<Seq<u8>>::empty(),
    ensures
        ({
            let r = v.flushed();
            &&& follows(r.input, handed + r.received, start, items)
            &&& r.input.app_data == Seq::<Seq<u8>>::empty()
            &&& same_progress(r.input, v.input)
            &&& r.state == v.state
            &&& r.params == v.params
        }),
{
    reveal(SessionView::flushed);
    emptied_follows(v.input, handed + v.received, start, items, now);
    assert((handed + v.received) + v.input.app_data =~= handed + (v.received
        + v.input.app_data));
    if v.input.app_data == Seq::<Seq<u8>>::empty() {
        assert(v.received + v.input.app_data =~= v.received);
    }
}

proof fn terminate_receives(
    v: SessionView,
    handed: Seq<Seq<u8>>,
    start: InputView,
    items: Seq<ArrivalView>,
    reason: DisconnectReason,
    notify_remote: bool,
    by_remote: bool,
    now: Instant,
)
    requires
        follows(v.input, handed + v.received, start, items),
        v.input.app_data == Seq::<Seq<u8>>::empty(),
    ensures
        ({
            let r = v.terminated(reason, notify_remote, by_remote, now);
            &&& follows(r.input, handed + r.received, start, items)
            &&& r.input.app_data == Seq::<Seq<u8>>::empty()
            &&& same_progress(r.input, v.input)
            &&& r.state == SessionState::Terminated
            &&& r.params == v.params
        }),
{
    reveal(SessionView::terminated);
    if v.state != SessionState::Terminated {
        let ticked = SessionView { output: v.output.ticked(now), ..v };
        flush_receives(ticked, handed, start, items, now);
    }
}

proof fn tick_receives(
    v: SessionView,
    handed: Seq<Seq<u8>>,
    start: InputView,
    items: Seq<ArrivalView>,
    now: Instant,
)
    requires
        follows(v.input, handed + v.received, start, items),
        v.input.app_data == Seq::<Seq<u8>>::empty(),
    ensures
        ({
            let r = v.ticked(now);
            &&& follows(r.input, handed + r.received, start, items)
            &&& r.input.app_data == Seq::<Seq<u8>>::empty()
            &&& same_progress(r.input, v.input)
            &&& r.state == v.state || r.state == SessionState::Terminated
            &&& r.params == v.params
        }),
{
    if v.state != SessionState::Terminated {
        let beaten = if v.heartbeat_due(now) {
            v.sending(v.params.frame(OpCode::Heartbeat, Seq::empty()))
        } else {
            v
        };
        if v.inactive(now) {
            terminate_receives(
                beaten,
                handed,
                start,
                items,
                DisconnectReason::Timeout,
                false,
                false,
                now,
            );
        } else {
            let ticked = SessionView {
                input: v.input.ticked(now),
                output: v.output.ticked(now),
                ..beaten
            };
            ticks_and_takes_follow(v.input, handed + v.received, start, items, now);
            flush_receives(ticked, handed, start, items, now);
        }
    }
}

proof fn other_packet_receives(
    v: SessionView,
    params: ParamsView,
    handed: Seq<Seq<u8>>,
    start: InputView,
    items: Seq<ArrivalView>,
    op: OpCode,
    payload: Seq<u8>,
    now: Instant,
)
    requires
        follows(v.input, handed + v.received, start, items),
        v.input.app_data == Seq::<Seq<u8>>::empty(),
        v.state != SessionState::Terminated,
        agree(params, v.params),
        !contextless(op),
        !brings_data(op),
    ensures
        ({
            let r = v.processed(params.frame(op, payload), now);
            &&& follows(r.input, handed + r.received, start, items)
            &&& r.input.app_data == Seq::<Seq<u8>>::empty()
            &&& same_progress(r.input, v.input)
            &&& r.state == v.state || r.state == SessionState::Terminated
            &&& r.params == v.params
        }),
{
    framed_packet_is_handled(v, params, op, payload, now);
    let touched = v.touched(now);
    let handled = touched.contextual_handled(op, payload, now);
    reveal(SessionView::single_handled);
    match disconnect_of(payload) {
        Ok(d) => {
            terminate_receives(touched, handed, start, items, d.reason, false, true, now);
        },
        Err(_) => {},
    }
    flush_receives(handled, handed, start, items, now);
}

/// What every call keeps that a session may get whose remote sends a stream.
proof fn call_receives(
    r: Run,
    params: ParamsView,
    start: InputView,
    stream: Seq<QueuedView>,
    call: Call,
    which: Option<int>,
)
    requires
        receives(r, start, arrivals(stream)),
        accept_all(start, arrivals(stream)).1 is Ok,
        agree(params, r.session.params),
        from_peer(r.session, params, stream, call, which),
        forall|k: int|
            0 <= k < stream.len() ==> packet_of(arrivals(stream), k) == (
            #[trigger] stream[k]).payload,
    ensures
        receives(r.called(call), start, arrivals(stream)),
        agree(params, r.called(call).session.params),
        r.called(call).session.input.config == r.session.input.config,
        r.called(call).session.state == r.session.state || r.called(call).session.state
            == SessionState::Terminated,
        which is None || r.session.state == SessionState::Terminated ==> same_progress(
            r.called(call).session.input,
            r.session.input,
        ),
        which is Some && r.session.state == SessionState::Running ==> exists|now: Instant|
            same_progress(
                r.called(call).session.input,
                #[trigger] arrived(r.session.input, arrivals(stream), which->0, now),
            ),
{
    let v = r.session;
    let items = arrivals(stream);
    let done = r.handed + v.received;
    match call {
        Call::Request => {},
        Call::Enqueue(_) => {},
        Call::Terminate { reason, notify_remote, now } => {
            terminate_receives(
                v,
                r.handed,
                start,
                items,
                reason,
                notify_remote,
                false,
                now,
            );
        },
        Call::Process { datagram, now } => {
            if v.state == SessionState::Running {
                match which {
                    Some(k) => {
                        stream_packet_receives(r, params, start, stream, k, now);
                        assert(same_progress(
                            r.called(call).session.input,
                            arrived(v.input, items, k, now),
                        ));
                    },
                    None => {
                        let (op, payload) = choose|op: OpCode, payload: Seq<u8>|
                            is_other_packet(params, datagram, op, payload);
                        other_packet_receives(
                            v,
                            params,
                            r.handed,
                            start,
                            items,
                            op,
                            payload,
                            now,
                        );
                    },
                }
            }
        },
        Call::Tick(now) => {
            tick_receives(v, r.handed, start, items, now);
        },
        Call::TakeReceived => {
            assert((r.handed + v.received) + Seq::<Seq<u8>>::empty() =~= done);
        },
        Call::TakeOutgoing | Call::TakeEvents => {},
    }
}

proof fn stream_packet_receives(
    r: Run,
    params: ParamsView,
    start: InputView,
    stream: Seq<QueuedView>,
    k: int,
    now: Instant,
)
    requires
        receives(r, start, arrivals(stream)),
        accept_all(start, arrivals(stream)).1 is Ok,
        agree(params, r.session.params),
        r.session.state == SessionState::Running,
        0 <= k < stream.len(),
        tellable(r.session.input, k),
        packet_of(arrivals(stream), k) == stream[k].payload,
    ensures
        ({
            let call = Call::Process { datagram: stream_datagram(params, stream, k), now };
            let next = r.called(call);
            &&& receives(next, start, arrivals(stream))
            &&& next.session.params == r.session.params
            &&& next.session.state == r.session.state
            &&& next.session.input.config == r.session.input.config
            &&& same_progress(
                next.session.input,
                arrived(r.session.input, arrivals(stream), k, now),
            )
        }),
{
    reveal(arrived);
    let v = r.session;
    let items = arrivals(stream);
    let packet = stream[k].packet();
    session_delivers_in_order(v, params, r.handed + v.received, start, stream, k, now);
    delivery_in_order(
        v.input,
        r.handed + v.received,
        start,
        items,
        k,
        now,
    );
    reliable_data_reaches_channel(v, params, packet.payload, stream[k].is_fragment, now);
    handle_keeps(v.input, packet.payload, stream[k].is_fragment, now);
    let n = v.processed(params.frame(packet.op_code, packet.payload), now);
    assert((r.handed + v.received) + n.received.skip(v.received.len() as int) =~= r.handed
        + n.received);
}

proof fn run_receives(
    r: Run,
    params: ParamsView,
    start: InputView,
    stream: Seq<QueuedView>,
    calls: Seq<Call>,
    which: Seq<Option<int>>,
)
    requires
        receives(r, start, arrivals(stream)),
        accept_all(start, arrivals(stream)).1 is Ok,
        agree(params, r.session.params),
        all_from_peer(r, params, stream, calls, which),
        forall|k: int|
            0 <= k < stream.len() ==> packet_of(arrivals(stream), k) == (
            #[trigger] stream[k]).payload,
    ensures
        receives(r.after(calls), start, arrivals(stream)),
        agree(params, r.after(calls).session.params),
        r.after(calls).session.input.config == r.session.input.config,
        r.after(calls).session.state == r.session.state || r.after(calls).session.state
            == SessionState::Terminated,
    decreases calls.len(),
{
    if calls.len() > 0 {
        let last = calls.len() - 1;
        let earlier = calls.drop_last();
        assert(calls.take(last) =~= earlier);
        earlier_from_peer(r, params, stream, calls, which);
        run_receives(r, params, start, stream, earlier, which.drop_last());
        assert(from_peer_at(r, params, stream, calls, which, last));
        call_receives(r.after(earlier), params, start, stream, calls.last(), which[last]);
    }
}

proof fn earlier_from_peer(
    r: Run,
    params: ParamsView,
    stream: Seq<QueuedView>,
    calls: Seq<Call>,
    which: Seq<Option<int>>,
)
    requires
        all_from_peer(r, params, stream, calls, which),
        calls.len() > 0,
    ensures
        all_from_peer(r, params, stream, calls.drop_last(), which.drop_last()),
{
    let earlier = calls.drop_last();
    assert forall|i: int| 0 <= i < earlier.len() implies #[trigger] from_peer_at(
        r,
        params,
        stream,
        earlier,
        which.drop_last(),
        i,
    ) by {
        assert(from_peer_at(r, params, stream, calls, which, i));
        assert(earlier.take(i) =~= calls.take(i));
    }
}

/// A packet that was handed over within the window, to a session that still runs, was
/// processed or is stashed.
#[verifier::rlimit(40)]
proof fn reached_is_held(
    r: Run,
    params: ParamsView,
    start: InputView,
    stream: Seq<QueuedView>,
    calls: Seq<Call>,
    which: Seq<Option<int>>,
    k: int,
)
    requires
        receives(r, start, arrivals(stream)),
        accept_all(start, arrivals(stream)).1 is Ok,
        agree(params, r.session.params),
        all_from_peer(r, params, stream, calls, which),
        forall|j: int|
            0 <= j < stream.len() ==> packet_of(arrivals(stream), j) == (
            #[trigger] stream[j]).payload,
        r.session.input.config.max_queued_incoming <= 0x7FFF,
        r.after(calls).session.state == SessionState::Running,
        reaches_window(r, calls, which, k),
    ensures
        held(r.after(calls).session.input, k),
    decreases calls.len(),
{
    let i = choose|i: int|
        0 <= i < calls.len() && #[trigger] reaches_window_at(r, calls, which, k, i);
    let last = calls.len() - 1;
    let earlier = calls.drop_last();
    let items = arrivals(stream);
    assert(calls.take(last) =~= earlier);
    earlier_from_peer(r, params, stream, calls, which);
    run_receives(r, params, start, stream, earlier, which.drop_last());
    assert(from_peer_at(r, params, stream, calls, which, last));
    let before = r.after(earlier);
    call_receives(before, params, start, stream, calls.last(), which[last]);
    if i < last {
        assert(earlier.take(i) =~= calls.take(i));
        assert(reaches_window_at(r, earlier, which.drop_last(), k, i));
        reached_is_held(r, params, start, stream, earlier, which.drop_last(), k);
    }
    match which[last] {
        Some(at) => {
            let now = choose|now: Instant|
                same_progress(
                    r.after(calls).session.input,
                    #[trigger] arrived(before.session.input, items, at, now),
                );
            handling_holds(
                before.session.input,
                before.handed + before.session.received,
                start,
                items,
                at,
                now,
                k,
            );
        },
        None => {},
    }
}

/// Over a whole run a session hands the application a beginning of what the remote was
/// given to send, piece by piece: in order, each once, none split, merged or altered. It
/// hands over all of it, where the session still runs and each packet was handed to it at
/// least once within its window, in whatever order and however often. Beside the packets
/// of the stream the remote may send whatever brings no data, and the session may be
/// called in any way.
pub proof fn session_run_delivers(
    session: SessionView,
    params: ParamsView,
    datas: Seq<Seq<u8>>,
    max_data_length: int,
    calls: Seq<Call>,
    which: Seq<Option<int>>,
    start: Instant,
)
    requires
        session.state == SessionState::Running,
        session.received == Seq::<Seq<u8>>::empty(),
        session.input == InputView::initial(session.input.config, session.input.cipher, start),
        session.input.config.max_queued_incoming > 0,
        agree(params, session.params),
        all_carried(session.input.cipher, datas, max_data_length),
        all_from_peer(
            Run::begun(session),
            params,
            stream_of(session.input.cipher, datas, max_data_length),
            calls,
            which,
        ),
    ensures
        ({
            let stream = stream_of(session.input.cipher, datas, max_data_length);
            let r = Run::begun(session).after(calls);
            &&& (r.handed + r.session.received).is_prefix_of(datas)
            &&& session.input.config.max_queued_incoming <= 0x7FFF && r.session.state
                == SessionState::Running && (forall|k: int|
                0 <= k < stream.len() ==> #[trigger] reaches_window(
                    Run::begun(session),
                    calls,
                    which,
                    k,
                )) ==> r.handed + r.session.received == datas
        }),
{
    let v = session.input;
    let stream = stream_of(v.cipher, datas, max_data_length);
    let items = arrivals(stream);
    let begun = Run::begun(session);
    let r = begun.after(calls);
    initial_follows(v, items, start);
    assert(begun.handed + session.received =~= Seq::<Seq<u8>>::empty());
    stream_round_trip(v, v.cipher, datas, max_data_length);
    assert forall|k: int| 0 <= k < stream.len() implies packet_of(items, k) == (
    #[trigger] stream[k]).payload by {
        packets_on_the_wire(v.cipher, datas, max_data_length, k);
    }
    run_receives(begun, params, v, stream, calls, which);
    let taken = r.handed + r.session.received;
    delivered_is_prefix(r.session.input, taken, v, datas, max_data_length);
    assert(taken + r.session.input.app_data =~= taken);
    if session.input.config.max_queued_incoming <= 0x7FFF && r.session.state
        == SessionState::Running && (forall|k: int|
        0 <= k < stream.len() ==> #[trigger] reaches_window(begun, calls, which, k)) {
        let at = r.session.input.window_start;
        if at < stream.len() {
            assert(reaches_window(begun, calls, which, at));
            reached_is_held(begun, params, v, stream, calls, which, at);
        }
    }
}

} // verus!
