//! What a session sends over a whole run of calls, and what two sessions promise together.
use vstd::prelude::*;
use vstd::utf8::encode_utf8;

use crate::channel::delivery::{
    all_carried, carries, cipher_after, enqueue_extends, initial_carries, out_of, stream_kept,
    stream_of,
};
use crate::channel::input::{
    accept_keeps, consume_keeps, handle_keeps, ArrivalView, InputView, OutgoingContextual,
};
use crate::channel::output::{enqueue_keeps, tick_keeps, OutputView, QueuedView};
use crate::packet_utils::{framed_payload, leading_op_code, ValidationResult};
use crate::packets::{acknowledged_of, disconnect_body, disconnect_of, Disconnect};
use crate::protocol::{contextless, DisconnectReason, OpCode};
use crate::rc4::KeyView;
use crate::session::laws::{framed_packet_is_handled, negotiation_agrees, payload_quiet};
use crate::session::model::{
    contextual_keeps, flush_keeps, moved_keeps, terminate_keeps, ParamsView, SessionView,
};
use crate::session::runs::{
    agree, all_from_peer, brings_data, is_other_packet, reaches_window, session_run_delivers, stream_datagram,
    Call, Run,
};
use crate::session::{SessionMode, SessionState};
use crate::time::Instant;
use crate::wire::{be16, from_be16};

verus! {

/// The application data that a session was given over some calls and took: what was
/// enqueued while it ran.
pub open spec fn given(r: Run, calls: Seq<Call>) -> Seq<Seq<u8>>
    decreases calls.len(),
{
    if calls.len() == 0 {
        Seq::empty()
    } else {
        let before = given(r, calls.drop_last());
        match calls.last() {
            Call::Enqueue(data) => if data.len() > 0 && r.after(calls.drop_last()).session.state
                == SessionState::Running {
                before.push(data)
            } else {
                before
            },
            _ => before,
        }
    }
}

/// Whether a datagram carries a packet of a stream, or none that brings data.
pub open spec fn explained(params: ParamsView, stream: Seq<QueuedView>, datagram: Seq<u8>) -> bool {
    ||| exists|k: int|
        0 <= k < stream.len() && datagram == #[trigger] stream_datagram(params, stream, k)
    ||| exists|op: OpCode, payload: Seq<u8>| is_other_packet(params, datagram, op, payload)
}

/// Whether all of some datagrams do.
pub open spec fn all_explained(
    params: ParamsView,
    stream: Seq<QueuedView>,
    datagrams: Seq<Seq<u8>>,
) -> bool {
    forall|j: int|
        0 <= j < datagrams.len() ==> explained(params, stream, #[trigger] datagrams[j])
}

/// Whether a datagram is a contextual packet that is no bundle, as a remote sends it.
pub open spec fn is_single_packet(
    params: ParamsView,
    datagram: Seq<u8>,
    op: OpCode,
    payload: Seq<u8>,
) -> bool {
    &&& !contextless(op)
    &&& op != OpCode::MultiPacket
    &&& datagram == params.frame(op, payload)
}

/// Whether a running session may get a call: what it is given to send can be carried, and
/// what it receives is what a remote that agrees with it sends.
pub open spec fn proper(v: SessionView, call: Call) -> bool {
    match call {
        Call::Enqueue(data) => v.state == SessionState::Running ==> v.output.can_carry(data),
        Call::Process { datagram, now } => exists|op: OpCode, payload: Seq<u8>|
            is_single_packet(v.params, datagram, op, payload),
        _ => true,
    }
}

/// Whether the `i`th of some calls is proper.
pub open spec fn proper_at(r: Run, calls: Seq<Call>, i: int) -> bool {
    proper(r.after(calls.take(i)).session, calls[i])
}

/// Whether all of some calls are proper.
pub open spec fn all_proper(r: Run, calls: Seq<Call>) -> bool {
    forall|i: int| 0 <= i < calls.len() ==> #[trigger] proper_at(r, calls, i)
}

/// Whether what an input channel wants to send is acknowledgements.
spec fn acks_only(outgoing: Seq<OutgoingContextual>) -> bool {
    forall|j: int|
        0 <= j < outgoing.len() ==> {
            ||| (#[trigger] outgoing[j]).op_code == OpCode::Acknowledge
            ||| outgoing[j].op_code == OpCode::AcknowledgeAll
        }
}

/// Whether the channels of a session carry a stream, and all that it wants to send is
/// explained by it.
spec fn on_stream(v: SessionView, stream: Seq<QueuedView>) -> bool {
    &&& v.wf()
    &&& carries(v.output, stream)
    &&& acks_only(v.input.outgoing)
    &&& all_explained(v.params, stream, v.outgoing)
}

/// Whether a session has neither moved on in its cipher nor changed its parameters.
spec fn unchanged(v: SessionView, r: SessionView) -> bool {
    &&& r.params == v.params
    &&& r.output.cipher == v.output.cipher
    &&& r.output.config == v.output.config
}

proof fn handle_acks(v: InputView, data: Seq<u8>, is_fragment: bool, now: Instant)
    requires
        v.wf(),
        acks_only(v.outgoing),
    ensures
        acks_only(v.handle(data, is_fragment, now).0.outgoing),
{
    reveal(InputView::handle);
    let item = ArrivalView { data: data.skip(2), is_fragment };
    let noted = v.noted(from_be16(data), false);
    accept_keeps(noted, item);
    if noted.accept(item).1 is Ok {
        consume_keeps(noted.accept(item).0);
    }
}

proof fn flush_on_stream(v: SessionView, stream: Seq<QueuedView>)
    requires
        on_stream(v, stream),
    ensures
        on_stream(v.flushed(), stream),
        unchanged(v, v.flushed()),
{
    flush_keeps(v);
    reveal(SessionView::flushed);
    let acks = v.framed_acks();
    let packets = v.framed_packets();
    let r = v.flushed();
    assert forall|j: int| 0 <= j < r.outgoing.len() implies explained(
        v.params,
        stream,
        #[trigger] r.outgoing[j],
    ) by {
        let n = v.outgoing.len();
        if j < n {
            assert(r.outgoing[j] == v.outgoing[j]);
        } else if j < n + acks.len() {
            let ack = v.input.outgoing[j - n];
            assert(r.outgoing[j] == acks[j - n]);
            assert(is_other_packet(v.params, r.outgoing[j], ack.op_code, be16(ack.sequence)));
        } else {
            let packet = v.output.outgoing[j - n - acks.len()];
            assert(r.outgoing[j] == packets[j - n - acks.len()]);
            assert(out_of(packet, stream));
            let k = choose|k: int|
                0 <= k < stream.len() && packet == (#[trigger] stream[k]).packet();
            assert(r.outgoing[j] == stream_datagram(v.params, stream, k));
        }
    }
}

proof fn send_on_stream(v: SessionView, stream: Seq<QueuedView>, op: OpCode, payload: Seq<u8>)
    requires
        on_stream(v, stream),
        !contextless(op),
        !brings_data(op),
    ensures
        on_stream(v.sending(v.params.frame(op, payload)), stream),
{
    let d = v.params.frame(op, payload);
    let r = v.sending(d);
    assert(is_other_packet(v.params, d, op, payload));
    assert forall|j: int| 0 <= j < r.outgoing.len() implies explained(
        v.params,
        stream,
        #[trigger] r.outgoing[j],
    ) by {
        if j < v.outgoing.len() {
            assert(r.outgoing[j] == v.outgoing[j]);
        }
    }
}

proof fn terminate_on_stream(
    v: SessionView,
    stream: Seq<QueuedView>,
    reason: DisconnectReason,
    notify_remote: bool,
    by_remote: bool,
    now: Instant,
)
    requires
        on_stream(v, stream),
    ensures
        on_stream(v.terminated(reason, notify_remote, by_remote, now), stream),
        unchanged(v, v.terminated(reason, notify_remote, by_remote, now)),
        v.terminated(reason, notify_remote, by_remote, now).state == SessionState::Terminated,
{
    terminate_keeps(v, reason, notify_remote, by_remote, now);
    reveal(SessionView::terminated);
    if v.state != SessionState::Terminated {
        stream_kept(v.output, stream, 0, now);
        tick_keeps(v.output, now);
        let ticked = SessionView { output: v.output.ticked(now), ..v };
        flush_on_stream(ticked, stream);
        send_on_stream(
            ticked.flushed(),
            stream,
            OpCode::Disconnect,
            disconnect_body(Disconnect { session_id: v.session_id, reason }),
        );
    }
}

proof fn tick_on_stream(v: SessionView, stream: Seq<QueuedView>, now: Instant)
    requires
        on_stream(v, stream),
    ensures
        on_stream(v.ticked(now), stream),
        unchanged(v, v.ticked(now)),
        v.ticked(now).state == v.state || v.ticked(now).state == SessionState::Terminated,
{
    if v.state != SessionState::Terminated {
        send_on_stream(v, stream, OpCode::Heartbeat, Seq::empty());
        let beaten = if v.heartbeat_due(now) {
            v.sending(v.params.frame(OpCode::Heartbeat, Seq::empty()))
        } else {
            v
        };
        if v.inactive(now) {
            terminate_on_stream(beaten, stream, DisconnectReason::Timeout, false, false, now);
        } else {
            stream_kept(v.output, stream, 0, now);
            tick_keeps(v.output, now);
            let ticked = SessionView {
                input: v.input.ticked(now),
                output: v.output.ticked(now),
                ..beaten
            };
            flush_on_stream(ticked, stream);
            assert(v.ticked(now).state == v.state) by {
                reveal(SessionView::flushed);
            }
        }
    }
}

proof fn single_on_stream(
    v: SessionView,
    stream: Seq<QueuedView>,
    op: OpCode,
    payload: Seq<u8>,
    now: Instant,
)
    requires
        on_stream(v, stream),
        op != OpCode::MultiPacket,
    ensures
        on_stream(v.single_handled(op, payload, now), stream),
        unchanged(v, v.single_handled(op, payload, now)),
{
    contextual_keeps(v, op, payload, now);
    let r = v.contextual_handled(op, payload, now);
    moved_keeps(v, r, payload.len() as int);
    assert(r == v.single_handled(op, payload, now));
    reveal(SessionView::single_handled);
    match op {
        OpCode::Disconnect => match disconnect_of(payload) {
            Ok(d) => {
                terminate_on_stream(v, stream, d.reason, false, true, now);
            },
            Err(_) => {},
        },
        OpCode::Heartbeat => {
            send_on_stream(v, stream, OpCode::Heartbeat, Seq::empty());
        },
        OpCode::ReliableData | OpCode::ReliableDataFragment => {
            let is_fragment = op == OpCode::ReliableDataFragment;
            handle_acks(v.input, payload, is_fragment, now);
            handle_keeps(v.input, payload, is_fragment, now);
            let next = SessionView { input: v.input.handle(payload, is_fragment, now).0, ..v };
            terminate_on_stream(next, stream, DisconnectReason::CorruptPacket, true, false, now);
        },
        OpCode::Acknowledge | OpCode::AcknowledgeAll => match acknowledged_of(payload) {
            Ok(sequence) => {
                stream_kept(v.output, stream, sequence, now);
            },
            Err(_) => {},
        },
        _ => {},
    }
}

proof fn process_on_stream(
    v: SessionView,
    stream: Seq<QueuedView>,
    op: OpCode,
    payload: Seq<u8>,
    now: Instant,
)
    requires
        on_stream(v, stream),
        !contextless(op),
        op != OpCode::MultiPacket,
        v.state == SessionState::Running,
    ensures
        ({
            let r = v.processed(v.params.frame(op, payload), now);
            &&& on_stream(r, stream)
            &&& unchanged(v, r)
            &&& r.state == SessionState::Running || r.state == SessionState::Terminated
        }),
{
    framed_packet_is_handled(v, v.params, op, payload, now);
    let touched = v.touched(now);
    single_on_stream(touched, stream, op, payload, now);
    let handled = touched.single_handled(op, payload, now);
    flush_on_stream(handled, stream);
    contextual_keeps(touched, op, payload, now);
    moved_keeps(touched, touched.contextual_handled(op, payload, now), payload.len() as int);
    assert(handled.flushed().state == handled.state) by {
        reveal(SessionView::flushed);
    }
}

/// Application data makes the stream of a session longer, and what was explained stays so.
proof fn enqueue_on_stream(
    v: SessionView,
    cipher: Option<KeyView>,
    datas: Seq<Seq<u8>>,
    data: Seq<u8>,
)
    requires
        on_stream(v, stream_of(cipher, datas, v.output.config.max_data_length as int)),
        v.output.cipher == cipher_after(cipher, datas),
        v.state == SessionState::Running,
        v.output.can_carry(data),
        data.len() > 0,
    ensures
        ({
            let stream = stream_of(
                cipher,
                datas.push(data),
                v.output.config.max_data_length as int,
            );
            &&& on_stream(v.enqueued(data), stream)
            &&& v.enqueued(data).output.cipher == cipher_after(cipher, datas.push(data))
            &&& forall|d: Seq<u8>|
                explained(
                    v.params,
                    stream_of(cipher, datas, v.output.config.max_data_length as int),
                    d,
                ) ==> #[trigger] explained(v.params, stream, d)
        }),
{
    let max = v.output.config.max_data_length as int;
    let shorter = stream_of(cipher, datas, max);
    let longer = stream_of(cipher, datas.push(data), max);
    enqueue_extends(v.output, cipher, datas, data);
    enqueue_keeps(v.output, data);
    assert(datas.push(data).drop_last() =~= datas);
    assert forall|d: Seq<u8>| explained(v.params, shorter, d) implies #[trigger] explained(
        v.params,
        longer,
        d,
    ) by {
        if exists|k: int|
            0 <= k < shorter.len() && d == #[trigger] stream_datagram(v.params, shorter, k) {
            let k = choose|k: int|
                0 <= k < shorter.len() && d == #[trigger] stream_datagram(v.params, shorter, k);
            assert(longer[k] == shorter[k]);
            assert(d == stream_datagram(v.params, longer, k));
        }
    }
}

/// What every proper call keeps of a session that sends.
spec fn sends(
    r: Run,
    params: ParamsView,
    cipher: Option<KeyView>,
    datas: Seq<Seq<u8>>,
    max_data_length: int,
) -> bool {
    let stream = stream_of(cipher, datas, max_data_length);
    &&& on_stream(r.session, stream)
    &&& r.session.params == params
    &&& r.session.output.config.max_data_length == max_data_length
    &&& r.session.output.cipher == cipher_after(cipher, datas)
    &&& r.session.state != SessionState::Negotiating
    &&& all_explained(params, stream, r.sent)
}

proof fn call_sends(
    r: Run,
    params: ParamsView,
    cipher: Option<KeyView>,
    datas: Seq<Seq<u8>>,
    max_data_length: int,
    call: Call,
)
    requires
        sends(r, params, cipher, datas, max_data_length),
        proper(r.session, call),
    ensures
        ({
            let more = match call {
                Call::Enqueue(data) => if data.len() > 0 && r.session.state
                    == SessionState::Running {
                    datas.push(data)
                } else {
                    datas
                },
                _ => datas,
            };
            sends(r.called(call), params, cipher, more, max_data_length)
        }),
{
    let v = r.session;
    let stream = stream_of(cipher, datas, max_data_length);
    match call {
        Call::Request => {},
        Call::Enqueue(data) => {
            if v.state == SessionState::Running && data.len() > 0 {
                enqueue_on_stream(v, cipher, datas, data);
                let longer = stream_of(cipher, datas.push(data), max_data_length);
                assert forall|j: int| 0 <= j < r.sent.len() implies explained(
                    params,
                    longer,
                    #[trigger] r.sent[j],
                ) by {
                    assert(explained(params, stream, r.sent[j]));
                }
            }
        },
        Call::Terminate { reason, notify_remote, now } => {
            terminate_on_stream(v, stream, reason, notify_remote, false, now);
        },
        Call::Process { datagram, now } => {
            if v.state == SessionState::Running {
                let (op, payload) = choose|op: OpCode, payload: Seq<u8>|
                    is_single_packet(v.params, datagram, op, payload);
                process_on_stream(v, stream, op, payload, now);
            }
        },
        Call::Tick(now) => {
            tick_on_stream(v, stream, now);
        },
        Call::TakeOutgoing => {
            let sent = r.sent + v.outgoing;
            assert forall|j: int| 0 <= j < sent.len() implies explained(
                params,
                stream,
                #[trigger] sent[j],
            ) by {
                if j < r.sent.len() {
                    assert(sent[j] == r.sent[j]);
                } else {
                    assert(sent[j] == v.outgoing[j - r.sent.len()]);
                }
            }
        },
        Call::TakeReceived | Call::TakeEvents => {},
    }
}

proof fn run_sends(
    r: Run,
    params: ParamsView,
    cipher: Option<KeyView>,
    max_data_length: int,
    calls: Seq<Call>,
)
    requires
        sends(r, params, cipher, Seq::empty(), max_data_length),
        all_proper(r, calls),
    ensures
        sends(r.after(calls), params, cipher, given(r, calls), max_data_length),
    decreases calls.len(),
{
    if calls.len() > 0 {
        let last = calls.len() - 1;
        let earlier = calls.drop_last();
        assert(calls.take(last) =~= earlier);
        assert(proper_at(r, calls, last));
        assert forall|i: int| 0 <= i < earlier.len() implies #[trigger] proper_at(
            r,
            earlier,
            i,
        ) by {
            assert(proper_at(r, calls, i));
            assert(earlier.take(i) =~= calls.take(i));
        }
        run_sends(r, params, cipher, max_data_length, earlier);
        call_sends(
            r.after(earlier),
            params,
            cipher,
            given(r, earlier),
            max_data_length,
            calls.last(),
        );
    }
}

/// Whether a session runs and its channels are as new.
pub open spec fn fresh(v: SessionView, start: Instant) -> bool {
    &&& v.state == SessionState::Running
    &&& v.input == InputView::initial(v.input.config, v.input.cipher, start)
    &&& v.output == OutputView::initial(v.output.config, v.output.cipher, start)
    &&& v.input.config.max_queued_incoming > 0
    &&& v.outgoing == Seq::<Seq<u8>>::empty()
    &&& v.received == Seq::<Seq<u8>>::empty()
}

/// All that a session sends over a whole run carries what it was given, cut into the
/// packets of one stream; beside these it sends nothing that brings data.
pub proof fn session_run_sends(session: SessionView, calls: Seq<Call>, start: Instant)
    requires
        fresh(session, start),
        all_proper(Run::begun(session), calls),
    ensures
        ({
            let r = Run::begun(session).after(calls);
            let stream = stream_of(
                session.output.cipher,
                given(Run::begun(session), calls),
                session.output.config.max_data_length as int,
            );
            &&& carries(r.session.output, stream)
            &&& all_explained(session.params, stream, r.sent + r.session.outgoing)
        }),
{
    let begun = Run::begun(session);
    let max = session.output.config.max_data_length as int;
    initial_carries(session.output, session.output.config, start);
    run_sends(begun, session.params, session.output.cipher, max, calls);
    let r = begun.after(calls);
    let stream = stream_of(session.output.cipher, given(begun, calls), max);
    let all = r.sent + r.session.outgoing;
    assert forall|j: int| 0 <= j < all.len() implies explained(
        session.params,
        stream,
        #[trigger] all[j],
    ) by {
        if j < r.sent.len() {
            assert(all[j] == r.sent[j]);
        } else {
            assert(all[j] == r.session.outgoing[j - r.sent.len()]);
        }
    }
}

/// Between two sessions that run with each other, under the same cipher or none, what the
/// one was given to send comes out of the other: a beginning of it at any time, piece by
/// piece, in order, each once, none split, merged or altered; and all of it, where the
/// receiver still runs and each packet was handed to it at least once within its window.
/// `which` says which packet of the sender each call of the receiver hands over.
pub proof fn sessions_deliver(
    sender: SessionView,
    sender_calls: Seq<Call>,
    receiver: SessionView,
    receiver_calls: Seq<Call>,
    which: Seq<Option<int>>,
    sender_start: Instant,
    receiver_start: Instant,
)
    requires
        fresh(sender, sender_start),
        fresh(receiver, receiver_start),
        agree(sender.params, receiver.params),
        sender.output.cipher == receiver.input.cipher,
        all_proper(Run::begun(sender), sender_calls),
        all_carried(
            sender.output.cipher,
            given(Run::begun(sender), sender_calls),
            sender.output.config.max_data_length as int,
        ),
        all_from_peer(
            Run::begun(receiver),
            sender.params,
            stream_of(
                sender.output.cipher,
                given(Run::begun(sender), sender_calls),
                sender.output.config.max_data_length as int,
            ),
            receiver_calls,
            which,
        ),
    ensures
        ({
            let datas = given(Run::begun(sender), sender_calls);
            let stream = stream_of(
                sender.output.cipher,
                datas,
                sender.output.config.max_data_length as int,
            );
            let s = Run::begun(sender).after(sender_calls);
            let r = Run::begun(receiver).after(receiver_calls);
            &&& all_explained(sender.params, stream, s.sent + s.session.outgoing)
            &&& (r.handed + r.session.received).is_prefix_of(datas)
            &&& receiver.input.config.max_queued_incoming <= 0x7FFF && r.session.state
                == SessionState::Running && (forall|k: int|
                0 <= k < stream.len() ==> #[trigger] reaches_window(
                    Run::begun(receiver),
                    receiver_calls,
                    which,
                    k,
                )) ==> r.handed + r.session.received == datas
        }),
{
    session_run_sends(sender, sender_calls, sender_start);
    session_run_delivers(
        receiver,
        sender.params,
        given(Run::begun(sender), sender_calls),
        sender.output.config.max_data_length as int,
        receiver_calls,
        which,
        receiver_start,
    );
}

/// Two sessions that were negotiated run with each other as new, once the datagrams of
/// the handshake were taken from them.
pub proof fn negotiated_sessions_are_fresh(
    client_params: ParamsView,
    server_params: ParamsView,
    cipher: Option<KeyView>,
    client_seed: u64,
    server_seed: u64,
    start: Instant,
    asked: Instant,
    answered: Instant,
)
    requires
        client_params.application_protocol == server_params.application_protocol,
        !encode_utf8(server_params.application_protocol).contains(0u8),
        client_params.max_queued_incoming_reliable > 0,
        server_params.max_queued_incoming_reliable > 0,
    ensures
        ({
            let client = SessionView::initial(
                SessionMode::Client,
                client_params,
                cipher,
                client_seed,
                start,
            ).requested();
            let server = SessionView::initial(
                SessionMode::Server,
                server_params,
                cipher,
                server_seed,
                start,
            ).processed(client.outgoing.last(), asked);
            let open = client.processed(server.outgoing.last(), answered);
            &&& fresh(SessionView { outgoing: Seq::empty(), ..open }, start)
            &&& fresh(SessionView { outgoing: Seq::empty(), ..server }, start)
            &&& agree(open.params, server.params)
            &&& open.output.cipher == server.input.cipher
            &&& server.output.cipher == open.input.cipher
        }),
{
    let fresh_client = SessionView::initial(
        SessionMode::Client,
        client_params,
        cipher,
        client_seed,
        start,
    );
    let client = fresh_client.requested();
    let fresh_server = SessionView::initial(
        SessionMode::Server,
        server_params,
        cipher,
        server_seed,
        start,
    );
    let server = fresh_server.processed(client.outgoing.last(), asked);
    let open = client.processed(server.outgoing.last(), answered);
    negotiation_agrees(
        client_params,
        server_params,
        cipher,
        cipher,
        client_seed,
        server_seed,
        start,
        asked,
        answered,
    );
    running_by_handshake(fresh_server, client.outgoing.last(), asked);
    running_by_handshake(client, server.outgoing.last(), answered);
    let none = Seq::<Seq<u8>>::empty();
    assert(none + none =~= none);
    assert(open.input =~= fresh_client.input);
    assert(server.input =~= fresh_server.input);
    assert(open.output =~= OutputView {
        config: open.output.config,
        ..fresh_client.output
    });
    assert(server.output =~= OutputView {
        config: server.output.config,
        ..fresh_server.output
    });
}

/// Only the handshake has a session run, and it leaves channels alone that hold no data.
proof fn running_by_handshake(v: SessionView, datagram: Seq<u8>, now: Instant)
    requires
        v.state == SessionState::Negotiating,
        v.processed(datagram, now).state == SessionState::Running,
        !v.open_on_next_packet,
        v.input.app_data == Seq::<Seq<u8>>::empty(),
    ensures
        ({
            let r = v.processed(datagram, now);
            &&& r.input == (InputView { outgoing: Seq::empty(), ..v.input })
            &&& r.received == v.received
            &&& r.output == (OutputView {
                outgoing: Seq::empty(),
                config: r.output.config,
                ..v.output
            })
        }),
{
    let touched = v.touched(now);
    let op = leading_op_code(datagram)->0;
    let body = framed_payload(datagram, v.params.crc_length);
    reveal(SessionView::flushed);
    assert(v.received + v.input.app_data =~= v.received);
    assert(v.corrupted(now).state == SessionState::Terminated) by {
        reveal(SessionView::terminated);
    }
    if v.datagram_verdict(datagram) == ValidationResult::Valid {
        if contextless(op) {
            reveal(SessionView::contextless_handled);
            reveal(SessionView::terminated);
        } else {
            payload_quiet(touched, op, body, now);
        }
    }
}

} // verus!
