//! What the two channels promise together: what is given to an output channel comes out
//! of the input channel at the other end, once, whole and in order, whatever becomes of
//! the packets on the way.
use vstd::prelude::*;

use crate::buffer::fits;
use crate::channel::input::{
    accept_keeps, data_keeps, data_units, occupied, occupied_taken, unpadded, ArrivalView,
    InputView, OutgoingContextual,
};
use crate::channel::output::{
    acknowledge_keeps, enqueue_keeps, later_fragments, packets, packets_numbered, place_of,
    reached, reached_exactly, sealed, sent_before, tick_keeps, OutputConfig, OutputView, QueuedView, ReliableView,
    FRAGMENT_LENGTH_SIZE, SEQUENCE_SIZE,
};
use crate::channel::{packet_sequence_of, recovered_agrees, sequence_recovered, true_sequence};
use crate::constants::MULTI_DATA_INDICATOR;
use crate::error::{Error, Result};
use crate::protocol::OpCode;
use crate::rc4::{applied_twice, KeyView};
use crate::time::{elapsed, Instant};
use crate::wire::{be16, be16_round_trip, be32, be32_round_trip, from_be16};

verus! {

/// A packet as the input channel processes it: without its sequence.
pub open spec fn arrival(packet: QueuedView) -> ArrivalView {
    ArrivalView { data: packet.payload.skip(2), is_fragment: packet.is_fragment }
}

/// Packets as the input channel processes them.
pub open spec fn arrivals(packets: Seq<QueuedView>) -> Seq<ArrivalView> {
    Seq::new(packets.len(), |k: int| arrival(packets[k]))
}

/// An input channel once it has processed some packets in order. It stops at the first
/// that fails.
pub open spec fn accept_all(v: InputView, items: Seq<ArrivalView>) -> (InputView, Result<()>)
    decreases items.len(),
{
    if items.len() == 0 {
        (v, Ok(()))
    } else {
        match v.accept(items[0]) {
            (next, Ok(_)) => accept_all(next, items.skip(1)),
            (next, Err(e)) => (next, Err(e)),
        }
    }
}

/// Processing packets in two goes is processing them in one.
pub proof fn accept_all_split(v: InputView, a: Seq<ArrivalView>, b: Seq<ArrivalView>)
    requires
        accept_all(v, a).1 is Ok,
    ensures
        accept_all(v, a + b) == accept_all(accept_all(v, a).0, b),
    decreases a.len(),
{
    if a.len() == 0 {
        assert(a + b =~= b);
    } else {
        let (next, _) = v.accept(a[0]);
        assert((a + b)[0] == a[0]);
        assert((a + b).skip(1) =~= a.skip(1) + b);
        accept_all_split(next, a.skip(1), b);
    }
}

/// Whether application data would be taken for a bundle of data units. Such data can
/// only be sent enciphered.
pub open spec fn looks_bundled(data: Seq<u8>) -> bool {
    data.len() > 2 && data[0] == MULTI_DATA_INDICATOR[0] && data[1] == MULTI_DATA_INDICATOR[1]
}

/// What an input channel hands out for one data unit that an output channel sealed is
/// the application data, and both are then at the same place in the cipher.
pub proof fn sealing_round_trip(cipher: Option<KeyView>, data: Seq<u8>, v: InputView)
    requires
        data.len() > 0,
        v.cipher == cipher,
        cipher is None ==> !looks_bundled(data),
    ensures
        v.with_data(sealed(cipher, data)).app_data == v.app_data.push(data),
        v.with_data(sealed(cipher, data)).cipher == (match cipher {
            Some(key) => Some(key.after(data.len())),
            None => None,
        }),
        v.with_data(sealed(cipher, data)) == v.with_unit(sealed(cipher, data)),
{
    reveal(InputView::with_data);
    let whole = sealed(cipher, data);
    assert(data_units(whole) =~= seq![whole]);
    assert(data_units(whole).skip(1) =~= Seq::<Seq<u8>>::empty());
    reveal_with_fuel(InputView::with_units, 2);
    match cipher {
        Some(key) => {
            let c = key.applied(data);
            applied_twice(key, data);
            assert(unpadded(whole) =~= c);
        },
        None => {},
    }
}

/// Handing out data units does not depend on the window.
proof fn window_unread(v: InputView, units: Seq<Seq<u8>>, window_start: int)
    ensures
        (InputView { window_start, ..v }).with_units(units) == (InputView {
            window_start,
            ..v.with_units(units)
        }),
    decreases units.len(),
{
    if units.len() > 0 {
        window_unread(v.with_unit(units[0]), units.skip(1), window_start);
    }
}

/// Handing out a data unit that is complete does not depend on the window.
proof fn completed_anywhere(v: InputView, window_start: int)
    ensures
        (InputView { window_start, ..v }).completed() == (InputView {
            window_start,
            ..v.completed()
        }),
{
    reveal(InputView::with_data);
    if v.pending is Some {
        window_unread(v, data_units(v.pending->0), window_start);
    }
}

/// Processing packets is processing the first, then the others.
proof fn accept_all_first(v: InputView, item: ArrivalView, others: Seq<ArrivalView>)
    requires
        v.accept(item).1 is Ok,
    ensures
        accept_all(v, seq![item] + others) == accept_all(v.accept(item).0, others),
{
    assert((seq![item] + others)[0] == item);
    assert((seq![item] + others).skip(1) =~= others);
}

/// The first of some later fragments, and the others.
proof fn later_fragments_first(first: int, data: Seq<u8>, chunk: int, n: int)
    requires
        0 < chunk,
        0 < data.len(),
        n == (if data.len() < chunk {
            data.len() as int
        } else {
            chunk
        }),
    ensures
        arrivals(later_fragments(first, data, chunk)) == seq![
            ArrivalView { data: data.take(n), is_fragment: true },
        ] + arrivals(later_fragments(first + 1, data.skip(n), chunk)),
{
    let items = arrivals(later_fragments(first, data, chunk));
    let others = later_fragments(first + 1, data.skip(n), chunk);
    assert(items[0].data =~= data.take(n));
    assert(items =~= seq![ArrivalView { data: data.take(n), is_fragment: true }] + arrivals(
        others,
    ));
}

/// Later fragments complete what is pending.
proof fn later_fragments_arrive(v: InputView, first: int, data: Seq<u8>, chunk: int)
    requires
        v.pending is Some,
        chunk > 0,
        v.pending->0.len() + data.len() == v.expected,
        data.len() > 0,
        fits(v.expected as nat),
    ensures
        ({
            let items = arrivals(later_fragments(first, data, chunk));
            let complete = InputView { pending: Some(v.pending->0 + data), ..v };
            accept_all(v, items) == (
                InputView {
                    window_start: v.window_start + items.len(),
                    ..complete.completed()
                },
                Ok::<(), Error>(()),
            )
        }),
    decreases data.len(),
{
    let n = if data.len() < chunk {
        data.len() as int
    } else {
        chunk
    };
    let rest = data.skip(n);
    let item = ArrivalView { data: data.take(n), is_fragment: true };
    let others = arrivals(later_fragments(first + 1, rest, chunk));
    later_fragments_first(first, data, chunk, n);
    accept_all_first(v, item, others);
    let more = InputView { pending: Some(v.pending->0 + data.take(n)), ..v };
    let complete = InputView { pending: Some(v.pending->0 + data), ..v };
    let next = v.accept(item).0;
    assert(next == InputView { window_start: v.window_start + 1, ..more.completed() });
    if rest.len() > 0 {
        assert(more.completed() == more);
        later_fragments_arrive(next, first + 1, rest, chunk);
        assert(next.pending->0 + rest =~= v.pending->0 + data);
        completed_anywhere(complete, v.window_start + 1);
    } else {
        assert(data.take(n) =~= data);
        assert(others.len() == 0);
    }
}

/// One packet that holds all of some data hands it out.
proof fn single_packet_arrives(v: InputView, first: int, whole: Seq<u8>, max_data_length: int)
    requires
        whole.len() + SEQUENCE_SIZE <= max_data_length,
    ensures
        ({
            let p = packets(first, whole, max_data_length);
            accept_all(v, arrivals(p)) == (
                InputView { window_start: v.window_start + p.len(), ..v.with_data(whole) },
                Ok::<(), Error>(()),
            )
        }),
{
    let items = arrivals(packets(first, whole, max_data_length));
    assert(items[0].data =~= whole);
    let next = v.accept(items[0]).0;
    assert(items.skip(1).len() == 0);
    assert(accept_all(next, items.skip(1)) == (next, Ok::<(), Error>(())));
}

/// The fragments of some data hand it out.
proof fn fragments_arrive(v: InputView, first: int, whole: Seq<u8>, max_data_length: int)
    requires
        v.pending is None,
        max_data_length >= SEQUENCE_SIZE + FRAGMENT_LENGTH_SIZE,
        whole.len() + SEQUENCE_SIZE > max_data_length,
        whole.len() <= u32::MAX,
        fits(whole.len()),
    ensures
        ({
            let p = packets(first, whole, max_data_length);
            let start = InputView {
                window_start: v.window_start + 1,
                pending: Some(whole),
                expected: whole.len() as int,
                ..v
            };
            accept_all(v, arrivals(p)) == (
                InputView { window_start: v.window_start + p.len(), ..start.completed() },
                Ok::<(), Error>(()),
            )
        }),
{
    let p = packets(first, whole, max_data_length);
    let items = arrivals(p);
    let chunk = max_data_length - SEQUENCE_SIZE;
    let n = chunk - FRAGMENT_LENGTH_SIZE;
    let len = (whole.len() % 0x1_0000_0000) as u32;
    let rest = whole.skip(n);
    assert(len == whole.len());
    assert(items[0].data =~= be32(len) + whole.take(n));
    be32_round_trip(len, whole.take(n));
    assert(items[0].data.skip(4) =~= whole.take(n));
    assert(items.skip(1) =~= arrivals(later_fragments(first + 1, rest, chunk)));
    let next = v.accept(items[0]).0;
    let begun = InputView { pending: Some(whole.take(n)), expected: whole.len() as int, ..v };
    assert(v.with_fragment(items[0].data) == Ok::<InputView, Error>(begun));
    assert(begun.completed() == begun);
    assert(next == InputView { window_start: v.window_start + 1, ..begun });
    later_fragments_arrive(next, first + 1, rest, chunk);
    assert(whole.take(n) + rest =~= whole);
    assert(accept_all(v, items) == accept_all(next, items.skip(1)));
}

/// Application data that was cut into packets comes out of an input channel, whole and
/// as one piece, once the packets are processed in order.
pub proof fn packets_round_trip(
    v: InputView,
    first: int,
    cipher: Option<KeyView>,
    data: Seq<u8>,
    max_data_length: int,
)
    requires
        v.pending is None,
        v.cipher == cipher,
        data.len() > 0,
        cipher is None ==> !looks_bundled(data),
        max_data_length >= SEQUENCE_SIZE + FRAGMENT_LENGTH_SIZE || sealed(cipher, data).len()
            + SEQUENCE_SIZE <= max_data_length,
        sealed(cipher, data).len() <= u32::MAX,
        fits(sealed(cipher, data).len()),
    ensures
        ({
            let p = packets(first, sealed(cipher, data), max_data_length);
            let (next, result) = accept_all(v, arrivals(p));
            &&& result is Ok
            &&& next.app_data == v.app_data.push(data)
            &&& next.pending is None
            &&& next.cipher == (match cipher {
                Some(key) => Some(key.after(data.len())),
                None => None,
            })
            &&& next.window_start == v.window_start + p.len()
        }),
{
    let whole = sealed(cipher, data);
    if whole.len() + SEQUENCE_SIZE <= max_data_length {
        single_packet_arrives(v, first, whole, max_data_length);
        sealing_round_trip(cipher, data, v);
        data_keeps(v, whole);
    } else {
        fragments_arrive(v, first, whole, max_data_length);
        let start = InputView {
            window_start: v.window_start + 1,
            pending: Some(whole),
            expected: whole.len() as int,
            ..v
        };
        sealing_round_trip(cipher, data, start);
        data_keeps(start, whole);
    }
}

/// The cipher state after some application data was enciphered.
pub open spec fn cipher_after(cipher: Option<KeyView>, datas: Seq<Seq<u8>>) -> Option<KeyView>
    decreases datas.len(),
{
    if datas.len() == 0 {
        cipher
    } else {
        match cipher_after(cipher, datas.drop_last()) {
            Some(key) => Some(key.after(datas.last().len())),
            None => None,
        }
    }
}

/// All the packets that carry some application data, numbered from zero on.
pub open spec fn stream_of(
    cipher: Option<KeyView>,
    datas: Seq<Seq<u8>>,
    max_data_length: int,
) -> Seq<QueuedView>
    decreases datas.len(),
{
    if datas.len() == 0 {
        Seq::empty()
    } else {
        let before = stream_of(cipher, datas.drop_last(), max_data_length);
        before + packets(
            before.len() as int,
            sealed(cipher_after(cipher, datas.drop_last()), datas.last()),
            max_data_length,
        )
    }
}

/// Whether the channels can carry each of `datas`, one after the other.
pub open spec fn all_carried(
    cipher: Option<KeyView>,
    datas: Seq<Seq<u8>>,
    max_data_length: int,
) -> bool {
    forall|k: int|
        0 <= k < datas.len() ==> carried(
            cipher_after(cipher, datas.take(k)),
            #[trigger] datas[k],
            max_data_length,
        )
}

/// Whether the channels can carry `data`: there is something to carry, it fits packets
/// and memory, its length can be written down, and it is not taken for a bundle.
pub open spec fn carried(cipher: Option<KeyView>, data: Seq<u8>, max_data_length: int) -> bool {
    &&& data.len() > 0
    &&& cipher is None ==> !looks_bundled(data)
    &&& max_data_length >= SEQUENCE_SIZE + FRAGMENT_LENGTH_SIZE || sealed(cipher, data).len()
        + SEQUENCE_SIZE <= max_data_length
    &&& sealed(cipher, data).len() <= u32::MAX
    &&& fits(sealed(cipher, data).len())
}

/// The packets of a stream are numbered from zero on, each starts with its number, and
/// none is longer than packets may be.
pub proof fn stream_numbered(
    cipher: Option<KeyView>,
    datas: Seq<Seq<u8>>,
    max_data_length: int,
    i: int,
)
    requires
        all_carried(cipher, datas, max_data_length),
        0 <= i < stream_of(cipher, datas, max_data_length).len(),
    ensures
        ({
            let packet = stream_of(cipher, datas, max_data_length)[i];
            &&& packet.sequence == i
            &&& packet.payload == be16(packet_sequence_of(i)) + arrival(packet).data
            &&& packet.payload.len() <= max_data_length
        }),
    decreases datas.len(),
{
    let before = datas.drop_last();
    let last = datas.last();
    let first = stream_of(cipher, before, max_data_length);
    assert(datas.take(datas.len() - 1) =~= before);
    assert(carried(cipher_after(cipher, before), last, max_data_length));
    if i < first.len() {
        assert forall|k: int| 0 <= k < before.len() implies carried(
            cipher_after(cipher, before.take(k)),
            #[trigger] before[k],
            max_data_length,
        ) by {
            assert(before.take(k) =~= datas.take(k));
            assert(datas[k] == before[k]);
        }
        stream_numbered(cipher, before, max_data_length, i);
    } else {
        packets_numbered(
            first.len() as int,
            sealed(cipher_after(cipher, before), last),
            max_data_length,
        );
    }
}

/// All the application data that was cut into packets comes out of an input channel, in
/// order, once all the packets are processed in order.
pub proof fn stream_round_trip(
    v: InputView,
    cipher: Option<KeyView>,
    datas: Seq<Seq<u8>>,
    max_data_length: int,
)
    requires
        v.pending is None,
        v.cipher == cipher,
        all_carried(cipher, datas, max_data_length),
    ensures
        ({
            let stream = stream_of(cipher, datas, max_data_length);
            let (next, result) = accept_all(v, arrivals(stream));
            &&& result is Ok
            &&& next.app_data == v.app_data + datas
            &&& next.pending is None
            &&& next.cipher == cipher_after(cipher, datas)
            &&& next.window_start == v.window_start + stream.len()
        }),
    decreases datas.len(),
{
    let stream = stream_of(cipher, datas, max_data_length);
    if datas.len() == 0 {
        assert(v.app_data + datas =~= v.app_data);
    } else {
        let before = datas.drop_last();
        let last = datas.last();
        assert(datas.take(datas.len() - 1) =~= before);
        assert(carried(cipher_after(cipher, before), last, max_data_length));
        assert forall|k: int| 0 <= k < before.len() implies carried(
            cipher_after(cipher, before.take(k)),
            #[trigger] before[k],
            max_data_length,
        ) by {
            assert(before.take(k) =~= datas.take(k));
            assert(datas[k] == before[k]);
        }
        stream_round_trip(v, cipher, before, max_data_length);
        let first = stream_of(cipher, before, max_data_length);
        let added = packets(
            first.len() as int,
            sealed(cipher_after(cipher, before), last),
            max_data_length,
        );
        let middle = accept_all(v, arrivals(first)).0;
        accept_all_split(v, arrivals(first), arrivals(added));
        assert(arrivals(stream) =~= arrivals(first) + arrivals(added));
        packets_round_trip(
            middle,
            first.len() as int,
            cipher_after(cipher, before),
            last,
            max_data_length,
        );
        assert(v.app_data + datas =~= (v.app_data + before).push(last));
    }
}

/// Whether all that an output channel holds to send is out of `stream`, and its next
/// packet follows `stream`.
pub open spec fn carries(v: OutputView, stream: Seq<QueuedView>) -> bool {
    &&& v.wf()
    &&& v.total == stream.len()
    &&& forall|k: int|
        0 <= k < v.queue.len() ==> (#[trigger] v.queue[k]).packet()
            == stream[v.queue[k].sequence].packet()
    &&& forall|k: int| 0 <= k < v.outgoing.len() ==> out_of(#[trigger] v.outgoing[k], stream)
}

/// Whether a packet is out of `stream`.
pub open spec fn out_of(packet: ReliableView, stream: Seq<QueuedView>) -> bool {
    exists|i: int| 0 <= i < stream.len() && packet == (#[trigger] stream[i]).packet()
}

/// An output channel sends the stream of what it was given: application data extends
/// the stream.
pub proof fn enqueue_extends(
    v: OutputView,
    cipher: Option<KeyView>,
    datas: Seq<Seq<u8>>,
    data: Seq<u8>,
)
    requires
        carries(v, stream_of(cipher, datas, v.config.max_data_length as int)),
        v.cipher == cipher_after(cipher, datas),
        v.can_carry(data),
        data.len() > 0,
    ensures
        carries(
            v.enqueued(data),
            stream_of(cipher, datas.push(data), v.config.max_data_length as int),
        ),
        v.enqueued(data).cipher == cipher_after(cipher, datas.push(data)),
{
    let max = v.config.max_data_length as int;
    let stream = stream_of(cipher, datas, max);
    let longer = stream_of(cipher, datas.push(data), max);
    let added = packets(v.total, sealed(v.cipher, data), max);
    let next = v.enqueued(data);
    assert(datas.push(data).drop_last() =~= datas);
    assert(longer == stream + added);
    enqueue_keeps(v, data);
    packets_numbered(v.total, sealed(v.cipher, data), max);
    assert forall|k: int| 0 <= k < next.queue.len() implies (#[trigger] next.queue[k]).packet()
        == longer[next.queue[k].sequence].packet() by {
        if k < v.queue.len() {
            assert(next.queue[k] == v.queue[k]);
        } else {
            assert(next.queue[k] == added[k - v.queue.len()]);
        }
    }
    assert forall|k: int| 0 <= k < next.outgoing.len() implies out_of(
        #[trigger] next.outgoing[k],
        longer,
    ) by {
        assert(out_of(v.outgoing[k], stream));
        let i = choose|i: int|
            0 <= i < stream.len() && v.outgoing[k] == (#[trigger] stream[i]).packet();
        assert(longer[i] == stream[i]);
    }
}

/// An output channel that was given nothing has an empty stream.
pub proof fn initial_carries(v: OutputView, config: OutputConfig, now: Instant)
    requires
        v == OutputView::initial(config, v.cipher, now),
    ensures
        carries(v, stream_of(v.cipher, Seq::empty(), config.max_data_length as int)),
        v.cipher == cipher_after(v.cipher, Seq::empty()),
{
}

/// Ticks, acknowledgements and taking what is to be sent leave the stream of an output
/// channel as it is.
pub proof fn stream_kept(v: OutputView, stream: Seq<QueuedView>, sequence: u16, now: Instant)
    requires
        carries(v, stream),
    ensures
        carries(v.ticked(now), stream),
        carries(v.acknowledged(sequence, now), stream),
        carries(v.acknowledged_all(sequence, now), stream),
        carries(OutputView { outgoing: Seq::empty(), ..v }, stream),
{
    acknowledge_keeps(v, sequence, now);
    tick_keeps(v, now);
    let t = v.ticked(now);
    let from = v.dispatch_from(now);
    assert forall|k: int| 0 <= k < t.outgoing.len() implies out_of(
        #[trigger] t.outgoing[k],
        stream,
    ) by {
        if k < v.outgoing.len() {
            assert(t.outgoing[k] == v.outgoing[k]);
        } else {
            let j = from + (k - v.outgoing.len());
            assert(t.outgoing[k] == v.queue[j].packet());
            assert(stream[v.queue[j].sequence].packet() == t.outgoing[k]);
        }
    }
    assert forall|k: int| 0 <= k < t.queue.len() implies (#[trigger] t.queue[k]).packet()
        == stream[t.queue[k].sequence].packet() by {
        assert(t.queue[k].packet() == v.queue[k].packet());
    }
    let s = v.acknowledged_sequence(sequence);
    reached_exactly(v.queue, s);
}

/// An `AcknowledgeAll` takes exactly the packets up to its sequence off the queue: those
/// that stay are those beyond it, in the same order.
pub proof fn acknowledge_all_exact(v: OutputView, packet_sequence: u16, now: Instant)
    requires
        v.wf(),
    ensures
        ({
            let s = v.acknowledged_sequence(packet_sequence);
            let n = reached(v.queue, s);
            let after = v.acknowledged_all(packet_sequence, now).queue;
            &&& after == v.queue.skip(n as int)
            &&& forall|k: int| 0 <= k < n ==> (#[trigger] v.queue[k]).sequence <= s
            &&& forall|k: int| 0 <= k < after.len() ==> (#[trigger] after[k]).sequence > s
        }),
{
    reached_exactly(v.queue, v.acknowledged_sequence(packet_sequence));
}

/// A single acknowledgement takes no other packet off the queue than the one that it
/// names.
pub proof fn acknowledge_exact(v: OutputView, packet_sequence: u16, now: Instant, k: int)
    requires
        v.wf(),
        0 <= k < v.queue.len(),
    ensures
        v.acknowledged(packet_sequence, now).queue.contains(v.queue[k]) <==> v.queue[k].sequence
            != v.acknowledged_sequence(packet_sequence),
{
    let s = v.acknowledged_sequence(packet_sequence);
    let after = v.acknowledged(packet_sequence, now).queue;
    match place_of(v.queue, s) {
        Some(p) => {
            if k < p {
                assert(after[k] == v.queue[k]);
            } else if k > p {
                assert(after[k - 1] == v.queue[k]);
            } else if after.contains(v.queue[k]) {
                let j = choose|j: int| 0 <= j < after.len() && after[j] == v.queue[k];
                if j < p {
                    assert(after[j] == v.queue[j]);
                } else {
                    assert(after[j] == v.queue[j + 1]);
                }
            }
        },
        None => {
            assert(after[k] == v.queue[k]);
        },
    }
}

/// No more packets are in flight than the send window allows: so many of those that
/// await acknowledgement were sent at most.
pub proof fn in_flight_bounded(v: OutputView)
    requires
        v.wf(),
    ensures
        sent_before(v.queue) <= v.config.max_queued_outgoing,
{
    sent_within(v.queue, v.config.max_queued_outgoing as int);
}

proof fn sent_within(queue: Seq<QueuedView>, window: int)
    requires
        0 <= window,
        forall|k: int| 0 <= k < queue.len() && (#[trigger] queue[k]).sent ==> k < window,
    ensures
        sent_before(queue) <= window,
        sent_before(queue) <= queue.len(),
    decreases queue.len(),
{
    if queue.len() > 0 {
        let rest = queue.drop_last();
        assert forall|k: int| 0 <= k < rest.len() && (#[trigger] rest[k]).sent implies k
            < window by {
            assert(rest[k] == queue[k]);
        }
        sent_within(rest, window);
    }
}

/// Once the remote has been silent for too long, all that awaits acknowledgement is sent
/// again, from the front of the queue to the end of the window.
pub proof fn silence_sends_window_again(v: OutputView, now: Instant)
    requires
        v.wf(),
        elapsed(now, v.last_ack_at).nanos > v.config.ack_wait.nanos,
    ensures
        v.ticked(now).outgoing == v.outgoing + Seq::new(
            v.dispatch_to() as nat,
            |k: int| v.queue[k].packet(),
        ),
{
    let sent = Seq::new(v.dispatch_to() as nat, |k: int| v.queue[k].packet());
    assert(v.ticked(now).outgoing =~= v.outgoing + sent);
}

/// An `AcknowledgeAll` is sent once: while nothing else arrives no tick sends another.
pub proof fn acknowledge_all_is_sent_once(v: InputView, now: Instant, later: Instant)
    requires
        v.ack_all_due(now),
    ensures
        v.ticked(now).outgoing == v.outgoing.push(
            OutgoingContextual {
                op_code: OpCode::AcknowledgeAll,
                sequence: packet_sequence_of(v.window_start - 1),
            },
        ),
        v.ticked(now).ticked(later) == v.ticked(now),
{
}

/// A repeat of a packet that was processed before is answered, once the acknowledgement
/// delay has passed since the remote was told last how far things have got: it is told
/// again. A further repeat within the delay is not answered.
pub proof fn repeat_is_acknowledged_again(
    v: InputView,
    data: Seq<u8>,
    is_fragment: bool,
    now: Instant,
    again: Seq<u8>,
    again_is_fragment: bool,
    later: Instant,
)
    requires
        data.len() >= 2,
        true_sequence(
            from_be16(data),
            v.window_start,
            v.config.max_queued_incoming as int,
        ) < v.window_start,
        elapsed(now, v.last_ack_all_time).nanos > v.config.max_ack_delay.nanos,
        again.len() >= 2,
        true_sequence(
            from_be16(again),
            v.window_start,
            v.config.max_queued_incoming as int,
        ) < v.window_start,
        elapsed(later, now).nanos <= v.config.max_ack_delay.nanos,
    ensures
        ({
            let r = v.handle(data, is_fragment, now).0;
            &&& r.outgoing == v.outgoing.push(
                OutgoingContextual {
                    op_code: OpCode::AcknowledgeAll,
                    sequence: packet_sequence_of(v.window_start - 1),
                },
            )
            &&& r.window_start == v.window_start
            &&& r.handle(again, again_is_fragment, later).0.outgoing == r.outgoing
        }),
{
    reveal(InputView::handle);
}

/// A lost acknowledgement is made up for. Where the sender sends a packet again that was
/// processed long enough before, the receiver answers, and that answer takes all that was
/// processed off the queue of the sender.
pub proof fn lost_acknowledgement_is_made_up_for(
    v: InputView,
    sequence: int,
    data: Seq<u8>,
    is_fragment: bool,
    now: Instant,
    sender: OutputView,
    later: Instant,
)
    requires
        v.config.max_queued_incoming <= 0x7FFF,
        v.window_start - v.config.max_queued_incoming <= sequence < v.window_start,
        elapsed(now, v.last_ack_all_time).nanos > v.config.max_ack_delay.nanos,
        sender.wf(),
        sender.config.max_queued_outgoing <= 0x7FFF,
        sender.max_client - sender.config.max_queued_outgoing <= v.window_start - 1
            <= sender.max_client + sender.config.max_queued_outgoing,
    ensures
        ({
            let r = v.handle(be16(packet_sequence_of(sequence)) + data, is_fragment, now).0;
            let answer = packet_sequence_of(v.window_start - 1);
            let relieved = sender.acknowledged_all(answer, later);
            &&& r.outgoing == v.outgoing.push(
                OutgoingContextual { op_code: OpCode::AcknowledgeAll, sequence: answer },
            )
            &&& forall|k: int|
                0 <= k < relieved.queue.len() ==> (#[trigger] relieved.queue[k]).sequence
                    >= v.window_start
        }),
{
    let packet = be16(packet_sequence_of(sequence)) + data;
    be16_round_trip(packet_sequence_of(sequence), data);
    sequence_recovered(sequence, v.window_start, v.config.max_queued_incoming as int);
    repeat_is_acknowledged_again(v, packet, is_fragment, now, packet, is_fragment, now);
    sequence_recovered(
        v.window_start - 1,
        sender.max_client,
        sender.config.max_queued_outgoing as int,
    );
    acknowledge_all_exact(sender, packet_sequence_of(v.window_start - 1), later);
}

/// Whether two input channels differ in nothing that processing packets depends on, but
/// for the application data that was taken from the first.
pub open spec fn same_core(a: InputView, b: InputView, taken: Seq<Seq<u8>>) -> bool {
    &&& a.cipher == b.cipher
    &&& a.pending == b.pending
    &&& a.expected == b.expected
    &&& taken + a.app_data == b.app_data
}

proof fn units_same(a: InputView, b: InputView, taken: Seq<Seq<u8>>, units: Seq<Seq<u8>>)
    requires
        same_core(a, b, taken),
    ensures
        same_core(a.with_units(units), b.with_units(units), taken),
    decreases units.len(),
{
    if units.len() > 0 {
        let x = a.with_unit(units[0]);
        let y = b.with_unit(units[0]);
        assert(taken + x.app_data =~= y.app_data);
        units_same(x, y, taken, units.skip(1));
    }
}

proof fn accept_same(a: InputView, b: InputView, taken: Seq<Seq<u8>>, item: ArrivalView)
    requires
        same_core(a, b, taken),
    ensures
        same_core(a.accept(item).0, b.accept(item).0, taken),
        a.accept(item).1 == b.accept(item).1,
{
    reveal(InputView::with_data);
    units_same(a, b, taken, data_units(item.data));
    match a.with_fragment(item.data) {
        Ok(x) => {
            let y = b.with_fragment(item.data)->Ok_0;
            units_same(x, y, taken, data_units(x.pending->0));
        },
        Err(_) => {},
    }
}

/// Whether `item` is the packet of `stream` with the sequence `s`, and `slot` its slot
/// among `max_queued`.
pub open spec fn sits(
    stream: Seq<ArrivalView>,
    item: ArrivalView,
    slot: int,
    max_queued: int,
    s: int,
) -> bool {
    0 <= s < stream.len() && stream[s] == item && s % max_queued == slot
}

/// Whether every packet in the stash is out of `stream`, in the slot of its sequence,
/// which is from `low` to `high`.
pub open spec fn stash_right(
    v: InputView,
    stream: Seq<ArrivalView>,
    low: int,
    high: int,
) -> bool {
    forall|slot: int|
        0 <= slot < v.stash.len() && (#[trigger] v.stash[slot]) is Some ==> exists|s: int|
            low <= s <= high && #[trigger] sits(
                stream,
                v.stash[slot]->0,
                slot,
                v.config.max_queued_incoming as int,
                s,
            )
}

/// Whether an input channel has processed just the packets of `stream` before the one
/// that it waits for. `taken` is the application data that was taken from it, and
/// `start` is how it began.
pub open spec fn caught_up(
    v: InputView,
    taken: Seq<Seq<u8>>,
    start: InputView,
    stream: Seq<ArrivalView>,
) -> bool {
    &&& v.wf()
    &&& v.config.max_queued_incoming > 0
    &&& v.window_start <= stream.len()
    &&& accept_all(start, stream.take(v.window_start)).1 is Ok
    &&& same_core(v, accept_all(start, stream.take(v.window_start)).0, taken)
}

/// Whether an input channel receives `stream`: it is caught up, and what it has stashed
/// is out of the stream.
pub open spec fn follows(
    v: InputView,
    taken: Seq<Seq<u8>>,
    start: InputView,
    stream: Seq<ArrivalView>,
) -> bool {
    &&& caught_up(v, taken, start, stream)
    &&& stash_right(
        v,
        stream,
        v.window_start + 1,
        v.window_start + v.config.max_queued_incoming,
    )
}

/// Two sequences in one window that have the same slot are the same.
pub(crate) proof fn same_slot(a: int, b: int, m: int)
    requires
        m > 0,
        a % m == b % m,
        a - m < b < a + m,
    ensures
        a == b,
{
    vstd::arithmetic::div_mod::lemma_fundamental_div_mod(a, m);
    vstd::arithmetic::div_mod::lemma_fundamental_div_mod(b, m);
    let p = a / m;
    let q = b / m;
    assert(p == q) by (nonlinear_arith)
        requires
            m > 0,
            -m < m * q - m * p < m,
    ;
}

/// A stream that can be processed as a whole can be processed up to any packet.
pub(crate) proof fn prefix_accepted(start: InputView, stream: Seq<ArrivalView>, n: int)
    requires
        accept_all(start, stream).1 is Ok,
        0 <= n <= stream.len(),
    ensures
        accept_all(start, stream.take(n)).1 is Ok,
        accept_all(start, stream) == accept_all(
            accept_all(start, stream.take(n)).0,
            stream.skip(n),
        ),
    decreases n,
{
    if n == 0 {
        assert(stream.skip(0) =~= stream);
    } else {
        let next = start.accept(stream[0]).0;
        prefix_accepted(next, stream.skip(1), n - 1);
        assert(stream.take(n).skip(1) =~= stream.skip(1).take(n - 1));
        assert(stream.skip(1).skip(n - 1) =~= stream.skip(n));
    }
}

/// Processing the next packet of the stream keeps a channel caught up.
pub(crate) proof fn next_keeps_caught_up(
    v: InputView,
    taken: Seq<Seq<u8>>,
    start: InputView,
    stream: Seq<ArrivalView>,
)
    requires
        caught_up(v, taken, start, stream),
        accept_all(start, stream).1 is Ok,
        v.window_start < stream.len(),
    ensures
        v.accept(stream[v.window_start]).1 is Ok,
        caught_up(v.accept(stream[v.window_start]).0, taken, start, stream),
{
    let n = v.window_start;
    let item = stream[n];
    let done = accept_all(start, stream.take(n)).0;
    accept_same(v, done, taken, item);
    accept_keeps(v, item);
    prefix_accepted(start, stream, n + 1);
    assert(stream.take(n + 1) =~= stream.take(n) + seq![item]);
    accept_all_split(start, stream.take(n), seq![item]);
    let next = done.accept(item).0;
    assert(seq![item].skip(1) =~= Seq::<ArrivalView>::empty());
    reveal_with_fuel(accept_all, 2);
}

/// Where the slot of a sequence is empty, no packet in the stash has that sequence.
pub(crate) proof fn stash_without(
    v: InputView,
    stream: Seq<ArrivalView>,
    next: InputView,
    low: int,
    high: int,
    above: int,
)
    requires
        stash_right(v, stream, low, high),
        next.config == v.config,
        next.stash.len() == v.stash.len() == v.config.max_queued_incoming,
        v.config.max_queued_incoming > 0,
        forall|at: int|
            0 <= at < v.stash.len() ==> (#[trigger] next.stash[at]) == (if at == v.slot(low) {
                None
            } else {
                v.stash[at]
            }),
        high <= above,
    ensures
        stash_right(next, stream, low + 1, above),
{
    let m = v.config.max_queued_incoming as int;
    assert forall|at: int| 0 <= at < next.stash.len() && (
    #[trigger] next.stash[at]) is Some implies exists|t: int|
        low + 1 <= t <= above && #[trigger] sits(stream, next.stash[at]->0, at, m, t) by {
        assert(next.stash[at] == v.stash[at]);
        assert(v.stash[at] is Some);
        let t = choose|t: int|
            low <= t <= high && #[trigger] sits(stream, v.stash[at]->0, at, m, t);
        assert(sits(stream, next.stash[at]->0, at, m, t));
    }
}

/// The packet in the slot of the sequence that a channel waits for is that packet.
pub(crate) proof fn stashed_is_next(v: InputView, stream: Seq<ArrivalView>)
    requires
        v.wf(),
        v.config.max_queued_incoming > 0,
        stash_right(
            v,
            stream,
            v.window_start,
            v.window_start + v.config.max_queued_incoming - 1,
        ),
        v.stash[v.slot(v.window_start)] is Some,
    ensures
        v.window_start < stream.len(),
        v.stash[v.slot(v.window_start)]->0 == stream[v.window_start],
{
    let m = v.config.max_queued_incoming as int;
    let slot = v.slot(v.window_start);
    vstd::arithmetic::div_mod::lemma_mod_bound(v.window_start, m);
    assert(v.stash[slot] is Some);
    let s = choose|s: int|
        v.window_start <= s <= v.window_start + m - 1 && #[trigger] sits(
            stream,
            v.stash[slot]->0,
            slot,
            m,
            s,
        );
    same_slot(v.window_start, s, m);
}

/// Processing the stashed packets that have their turn keeps a channel on the stream.
proof fn consume_follows(
    v: InputView,
    taken: Seq<Seq<u8>>,
    start: InputView,
    stream: Seq<ArrivalView>,
)
    requires
        caught_up(v, taken, start, stream),
        accept_all(start, stream).1 is Ok,
        stash_right(
            v,
            stream,
            v.window_start,
            v.window_start + v.config.max_queued_incoming - 1,
        ),
    ensures
        v.consume().1 is Ok,
        follows(v.consume().0, taken, start, stream),
        v.consume().0.window_start >= v.window_start,
    decreases occupied(v.stash),
{
    let m = v.config.max_queued_incoming as int;
    let slot = v.slot(v.window_start);
    let high = v.window_start + m - 1;
    vstd::arithmetic::div_mod::lemma_mod_bound(v.window_start, m);
    match v.stash[slot] {
        None => {
            stash_without(v, stream, v, v.window_start, high, high + 1);
        },
        Some(item) => {
            stashed_is_next(v, stream);
            occupied_taken(v.stash, slot);
            let w = v.without(slot);
            accept_keeps(w, item);
            let next = w.accept(item).0;
            assert(caught_up(w, taken, start, stream));
            next_keeps_caught_up(w, taken, start, stream);
            stash_without(v, stream, next, v.window_start, high, high + 1);
            consume_follows(next, taken, start, stream);
        },
    }
}

/// Whether the 16 bits of a packet do not make it pass for another that a channel would
/// accept: where they stand for a sequence in the window, it is its own.
pub open spec fn tellable(v: InputView, sequence: int) -> bool {
    let max_queued = v.config.max_queued_incoming as int;
    let s = true_sequence(packet_sequence_of(sequence), v.window_start, max_queued);
    v.window_start <= s <= v.window_start + max_queued ==> s == sequence
}

/// A packet that is less than a span ahead of the sequence waited for, and not a span
/// behind the end of the window, passes for no other.
pub proof fn near_is_tellable(v: InputView, sequence: int)
    requires
        v.window_start + v.config.max_queued_incoming - 0x1_0000 < sequence < v.window_start
            + 0x1_0000,
    ensures
        tellable(v, sequence),
{
    recovered_agrees(
        packet_sequence_of(sequence),
        v.window_start,
        v.config.max_queued_incoming as int,
    );
}

/// Reliable data is delivered in order, whatever is lost, repeated or overtaken: any
/// packet of the stream, arriving at any time, leaves the channel on the stream, and the
/// packet that the channel waits for moves it on.
pub proof fn delivery_in_order(
    v: InputView,
    taken: Seq<Seq<u8>>,
    start: InputView,
    stream: Seq<ArrivalView>,
    sequence: int,
    now: Instant,
)
    requires
        follows(v, taken, start, stream),
        accept_all(start, stream).1 is Ok,
        0 <= sequence < stream.len(),
        tellable(v, sequence),
    ensures
        ({
            let data = be16(packet_sequence_of(sequence)) + stream[sequence].data;
            let (next, result) = v.handle(data, stream[sequence].is_fragment, now);
            &&& result is Ok
            &&& follows(next, taken, start, stream)
            &&& next.window_start >= v.window_start
            &&& sequence == v.window_start ==> next.window_start > v.window_start
        }),
{
    reveal(InputView::handle);
    let m = v.config.max_queued_incoming as int;
    let item = stream[sequence];
    let p = packet_sequence_of(sequence);
    let data = be16(p) + item.data;
    let s = true_sequence(p, v.window_start, m);
    be16_round_trip(p, item.data);
    assert(data.skip(2) =~= item.data);
    assert(ArrivalView { data: data.skip(2), is_fragment: item.is_fragment } == item);
    recovered_agrees(p, v.window_start, m);
    if s > v.window_start + m {
        unmoved_follows(v, v.tallied(), taken, start, stream);
    } else if s < v.window_start {
        unmoved_follows(v, v.tallied().repeated(now), taken, start, stream);
    } else {
        assert(s == sequence);
        let noted = v.noted(p, s != v.window_start);
        unmoved_follows(v, noted, taken, start, stream);
        if s == v.window_start {
            waited_for_follows(noted, taken, start, stream);
        } else {
            stashed_right(noted, stream, s);
            assert(follows(noted.stashed(s, item), taken, start, stream));
        }
    }
}

/// A channel that differs in its statistics and acknowledgements alone is on the stream
/// too.
pub(crate) proof fn unmoved_follows(
    a: InputView,
    b: InputView,
    taken: Seq<Seq<u8>>,
    start: InputView,
    stream: Seq<ArrivalView>,
)
    requires
        follows(a, taken, start, stream),
        b == (InputView {
            stats: b.stats,
            outgoing: b.outgoing,
            last_ack_all: b.last_ack_all,
            last_ack_all_time: b.last_ack_all_time,
            ..a
        }),
        b.last_ack_all == a.last_ack_all || b.last_ack_all == a.window_start - 1,
    ensures
        follows(b, taken, start, stream),
{
    stash_unmoved(a, b, stream);
}

/// The packet that a channel waits for leaves it on the stream, and moves it on.
proof fn waited_for_follows(
    v: InputView,
    taken: Seq<Seq<u8>>,
    start: InputView,
    stream: Seq<ArrivalView>,
)
    requires
        follows(v, taken, start, stream),
        accept_all(start, stream).1 is Ok,
        v.window_start < stream.len(),
    ensures
        ({
            let (next, result) = v.accept_next(stream[v.window_start]);
            &&& result is Ok
            &&& follows(next, taken, start, stream)
            &&& next.window_start > v.window_start
        }),
{
    let item = stream[v.window_start];
    next_keeps_caught_up(v, taken, start, stream);
    accept_keeps(v, item);
    let next = v.accept(item).0;
    stash_moved(v, next, stream);
    consume_follows(next, taken, start, stream);
}

/// Once the window has moved by one, the stash is from the sequence waited for on.
pub(crate) proof fn stash_moved(v: InputView, next: InputView, stream: Seq<ArrivalView>)
    requires
        stash_right(v, stream, v.window_start + 1, v.window_start + v.config.max_queued_incoming),
        next.stash == v.stash,
        next.config == v.config,
        next.window_start == v.window_start + 1,
    ensures
        stash_right(
            next,
            stream,
            next.window_start,
            next.window_start + next.config.max_queued_incoming - 1,
        ),
{
    let m = v.config.max_queued_incoming as int;
    assert forall|at: int| 0 <= at < next.stash.len() && (
    #[trigger] next.stash[at]) is Some implies exists|t: int|
        next.window_start <= t <= next.window_start + m - 1 && #[trigger] sits(
            stream,
            next.stash[at]->0,
            at,
            m,
            t,
        ) by {
        assert(v.stash[at] is Some);
        let t = choose|t: int|
            v.window_start + 1 <= t <= v.window_start + m && #[trigger] sits(
                stream,
                v.stash[at]->0,
                at,
                m,
                t,
            );
        assert(sits(stream, next.stash[at]->0, at, m, t));
    }
}

/// Stashing a packet of the stream in its slot keeps the stash right.
proof fn stashed_right(v: InputView, stream: Seq<ArrivalView>, s: int)
    requires
        v.wf(),
        v.window_start < s <= v.window_start + v.config.max_queued_incoming,
        0 <= s < stream.len(),
        stash_right(v, stream, v.window_start + 1, v.window_start + v.config.max_queued_incoming),
    ensures
        stash_right(
            v.stashed(s, stream[s]),
            stream,
            v.window_start + 1,
            v.window_start + v.config.max_queued_incoming,
        ),
        v.stashed(s, stream[s]).wf(),
{
    let m = v.config.max_queued_incoming as int;
    let item = stream[s];
    let next = v.stashed(s, item);
    let slot = v.slot(s);
    assert(next.config == v.config);
    vstd::arithmetic::div_mod::lemma_mod_bound(s, m);
    assert forall|at: int| 0 <= at < next.stash.len() && (
    #[trigger] next.stash[at]) is Some implies exists|t: int|
        v.window_start + 1 <= t <= v.window_start + m && #[trigger] sits(
            stream,
            next.stash[at]->0,
            at,
            m,
            t,
        ) by {
        if at == slot && v.stash[slot] is None {
            assert(sits(stream, next.stash[at]->0, at, m, s));
        } else {
            assert(next.stash[at] == v.stash[at]);
            assert(v.stash[at] is Some);
        }
    }
}

/// A channel with the same stash and window holds the right packets too.
proof fn stash_unmoved(a: InputView, b: InputView, stream: Seq<ArrivalView>)
    requires
        stash_right(a, stream, a.window_start + 1, a.window_start + a.config.max_queued_incoming),
        a.stash == b.stash,
        a.config == b.config,
        a.window_start == b.window_start,
    ensures
        stash_right(b, stream, b.window_start + 1, b.window_start + b.config.max_queued_incoming),
{
    let m = a.config.max_queued_incoming as int;
    assert forall|at: int| 0 <= at < b.stash.len() && (
    #[trigger] b.stash[at]) is Some implies exists|t: int|
        b.window_start + 1 <= t <= b.window_start + m && #[trigger] sits(
            stream,
            b.stash[at]->0,
            at,
            m,
            t,
        ) by {
        assert(a.stash[at] is Some);
    }
}

/// Ticks, and taking acknowledgements and application data, leave an input channel on
/// the stream.
pub proof fn ticks_and_takes_follow(
    v: InputView,
    taken: Seq<Seq<u8>>,
    start: InputView,
    stream: Seq<ArrivalView>,
    now: Instant,
)
    requires
        follows(v, taken, start, stream),
    ensures
        follows(v.ticked(now), taken, start, stream),
        follows(InputView { outgoing: Seq::empty(), ..v }, taken, start, stream),
        follows(
            InputView { app_data: Seq::empty(), ..v },
            taken + v.app_data,
            start,
            stream,
        ),
{
    stash_unmoved(v, v.ticked(now), stream);
    let drained = InputView { app_data: Seq::empty(), ..v };
    stash_unmoved(v, drained, stream);
    stash_unmoved(v, InputView { outgoing: Seq::empty(), ..v }, stream);
    assert((taken + v.app_data) + drained.app_data =~= taken + v.app_data);
}

/// An input channel that nothing has arrived at is on every stream.
pub proof fn initial_follows(v: InputView, stream: Seq<ArrivalView>, now: Instant)
    requires
        v == InputView::initial(v.config, v.cipher, now),
        v.config.max_queued_incoming > 0,
    ensures
        follows(v, Seq::empty(), v, stream),
{
    assert(stream.take(0) =~= Seq::<ArrivalView>::empty());
    assert(Seq::<Seq<u8>>::empty() + v.app_data =~= v.app_data);
}

/// Processing packets only adds to the application data.
pub(crate) proof fn accept_all_extends(v: InputView, items: Seq<ArrivalView>)
    ensures
        v.app_data.is_prefix_of(accept_all(v, items).0.app_data),
    decreases items.len(),
{
    if items.len() > 0 {
        let (next, result) = v.accept(items[0]);
        reveal(InputView::with_data);
        units_extend(v, data_units(items[0].data));
        match v.with_fragment(items[0].data) {
            Ok(x) => {
                units_extend(x, data_units(x.pending->0));
            },
            Err(_) => {},
        }
        if result is Ok {
            accept_all_extends(next, items.skip(1));
        }
    }
}

proof fn units_extend(v: InputView, units: Seq<Seq<u8>>)
    ensures
        v.app_data.is_prefix_of(v.with_units(units).app_data),
    decreases units.len(),
{
    if units.len() > 0 {
        units_extend(v.with_unit(units[0]), units.skip(1));
    }
}

/// All that ever comes out of an input channel that receives what an output channel was
/// given to send is the beginning of what was given, piece by piece; and it is all of it
/// once the last packet is processed.
pub proof fn delivered_is_prefix(
    v: InputView,
    taken: Seq<Seq<u8>>,
    start: InputView,
    datas: Seq<Seq<u8>>,
    max_data_length: int,
)
    requires
        start.pending is None,
        start.app_data == Seq::<Seq<u8>>::empty(),
        start.window_start == 0,
        all_carried(start.cipher, datas, max_data_length),
        follows(
            v,
            taken,
            start,
            arrivals(stream_of(start.cipher, datas, max_data_length)),
        ),
    ensures
        (taken + v.app_data).is_prefix_of(datas),
        v.window_start == stream_of(start.cipher, datas, max_data_length).len() ==> taken
            + v.app_data == datas,
{
    let stream = arrivals(stream_of(start.cipher, datas, max_data_length));
    stream_round_trip(start, start.cipher, datas, max_data_length);
    assert(start.app_data + datas =~= datas);
    prefix_accepted(start, stream, v.window_start);
    let reached = accept_all(start, stream.take(v.window_start)).0;
    accept_all_extends(reached, stream.skip(v.window_start));
    if v.window_start == stream.len() {
        assert(stream.take(v.window_start) =~= stream);
    }
}

} // verus!
