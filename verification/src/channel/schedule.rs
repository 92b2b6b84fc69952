//! What comes out of an input channel once packets have arrived at it in any order, any
//! number of times.
use vstd::prelude::*;

use crate::channel::delivery::{
    accept_all, accept_all_extends, all_carried, arrivals, caught_up, delivery_in_order,
    follows, initial_follows, next_keeps_caught_up, prefix_accepted, same_slot, stash_moved,
    stash_right, stash_without, stashed_is_next, stream_numbered, stream_of, stream_round_trip,
    tellable, unmoved_follows,
};
use crate::channel::input::{
    accept_keeps, data_units, handle_keeps, occupied, occupied_taken, ArrivalView, InputView,
};
use crate::channel::{counted, packet_sequence_of, sequence_recovered, true_sequence};
use crate::error::Error;
use crate::rc4::KeyView;
use crate::time::Instant;
use crate::wire::{be16, be16_round_trip, from_be16};

verus! {

/// A packet of a stream on the wire, behind its OP code.
pub open spec fn packet_of(items: Seq<ArrivalView>, k: int) -> Seq<u8> {
    be16(packet_sequence_of(k)) + items[k].data
}

/// An input channel once a packet of a stream has arrived at it.
#[verifier::opaque]
pub open spec fn arrived(v: InputView, items: Seq<ArrivalView>, k: int, now: Instant) -> InputView {
    v.handle(packet_of(items, k), items[k].is_fragment, now).0
}

/// An input channel once packets of a stream have arrived at it, as a schedule says:
/// which packet, and when. A packet may come in any order, more than once or never.
pub open spec fn received_all(
    v: InputView,
    items: Seq<ArrivalView>,
    schedule: Seq<(int, Instant)>,
) -> InputView
    decreases schedule.len(),
{
    if schedule.len() == 0 {
        v
    } else {
        let (k, now) = schedule.last();
        arrived(received_all(v, items, schedule.drop_last()), items, k, now)
    }
}

/// Whether the `i`th arrival of a schedule is a packet of the stream that does not pass
/// for another then.
pub open spec fn tellable_at(
    v: InputView,
    items: Seq<ArrivalView>,
    schedule: Seq<(int, Instant)>,
    i: int,
) -> bool {
    &&& 0 <= schedule[i].0 < items.len()
    &&& tellable(received_all(v, items, schedule.take(i)), schedule[i].0)
}

/// Whether a schedule names packets of a stream, none of which passes for another when
/// it arrives.
pub open spec fn all_tellable(
    v: InputView,
    items: Seq<ArrivalView>,
    schedule: Seq<(int, Instant)>,
) -> bool {
    forall|i: int| 0 <= i < schedule.len() ==> #[trigger] tellable_at(v, items, schedule, i)
}

/// Whether the `i`th arrival of a schedule is the packet `k`, no further ahead of the one
/// that is waited for than the window allows.
pub open spec fn in_window_at(
    v: InputView,
    items: Seq<ArrivalView>,
    schedule: Seq<(int, Instant)>,
    k: int,
    i: int,
) -> bool {
    schedule[i].0 == k && k <= received_all(v, items, schedule.take(i)).window_start
        + v.config.max_queued_incoming
}

/// Whether a packet arrives at least once when it is no further ahead of the one that is
/// waited for than the window allows.
pub open spec fn arrives_in_window(
    v: InputView,
    items: Seq<ArrivalView>,
    schedule: Seq<(int, Instant)>,
    k: int,
) -> bool {
    exists|i: int|
        0 <= i < schedule.len() && #[trigger] in_window_at(v, items, schedule, k, i)
}

/// How many bytes some pieces of data have together.
pub open spec fn total_length(datas: Seq<Seq<u8>>) -> nat
    decreases datas.len(),
{
    if datas.len() == 0 {
        0
    } else {
        total_length(datas.drop_last()) + datas.last().len()
    }
}

/// Whether a channel from which no data was taken has counted the bytes that came out of
/// it.
pub open spec fn weighed(v: InputView) -> bool {
    v.stats.total_received_bytes == counted(0, total_length(v.app_data))
}

proof fn units_counted(v: InputView, units: Seq<Seq<u8>>)
    ensures
        v.with_units(units).stats.total_received == v.stats.total_received,
        weighed(v) ==> weighed(v.with_units(units)),
    decreases units.len(),
{
    if units.len() > 0 {
        let next = v.with_unit(units[0]);
        assert(next.app_data.drop_last() =~= v.app_data);
        units_counted(next, units.skip(1));
    }
}

proof fn accept_counted(v: InputView, item: ArrivalView)
    ensures
        v.accept(item).0.stats.total_received == v.stats.total_received,
        weighed(v) ==> weighed(v.accept(item).0),
{
    reveal(InputView::with_data);
    units_counted(v, data_units(item.data));
    match v.with_fragment(item.data) {
        Ok(next) => {
            units_counted(next, data_units(next.pending->0));
        },
        Err(_) => {},
    }
}

proof fn consume_counted(v: InputView)
    requires
        v.wf(),
    ensures
        v.consume().0.stats.total_received == v.stats.total_received,
        weighed(v) ==> weighed(v.consume().0),
    decreases occupied(v.stash),
{
    let slot = v.slot(v.window_start);
    if v.config.max_queued_incoming > 0 && v.stash[slot] is Some {
        let item = v.stash[slot]->0;
        let w = v.without(slot);
        occupied_taken(v.stash, slot);
        accept_keeps(w, item);
        accept_counted(w, item);
        if w.accept(item).1 is Ok {
            consume_counted(w.accept(item).0);
        }
    }
}

/// Every packet that is handled is counted, and so is every byte that comes out of it.
pub proof fn handling_is_counted(v: InputView, data: Seq<u8>, is_fragment: bool, now: Instant)
    requires
        v.wf(),
    ensures
        v.handle(data, is_fragment, now).0.stats.total_received == counted(
            v.stats.total_received,
            1,
        ),
        weighed(v) ==> weighed(v.handle(data, is_fragment, now).0),
{
    reveal(InputView::handle);
    let item = ArrivalView { data: data.skip(2), is_fragment };
    let noted = v.noted(from_be16(data), false);
    accept_counted(noted, item);
    accept_keeps(noted, item);
    if noted.accept(item).1 is Ok {
        consume_counted(noted.accept(item).0);
    }
}

/// Whether a packet was processed, or is stashed.
pub open spec fn held(v: InputView, k: int) -> bool {
    ||| k < v.window_start
    ||| {
        &&& v.window_start < k <= v.window_start + v.config.max_queued_incoming
        &&& v.stash[v.slot(k)] is Some
    }
}

/// Processing the stashed packets that have their turn loses none.
proof fn consume_holds(
    v: InputView,
    taken: Seq<Seq<u8>>,
    start: InputView,
    items: Seq<ArrivalView>,
    k: int,
)
    requires
        caught_up(v, taken, start, items),
        accept_all(start, items).1 is Ok,
        stash_right(
            v,
            items,
            v.window_start,
            v.window_start + v.config.max_queued_incoming - 1,
        ),
        k < v.window_start || (v.window_start <= k < v.window_start
            + v.config.max_queued_incoming && v.stash[v.slot(k)] is Some),
    ensures
        held(v.consume().0, k),
    decreases occupied(v.stash),
{
    let m = v.config.max_queued_incoming as int;
    let slot = v.slot(v.window_start);
    vstd::arithmetic::div_mod::lemma_mod_bound(v.window_start, m);
    vstd::arithmetic::div_mod::lemma_mod_bound(k, m);
    match v.stash[slot] {
        None => {},
        Some(item) => {
            stashed_is_next(v, items);
            occupied_taken(v.stash, slot);
            let w = v.without(slot);
            accept_keeps(w, item);
            let next = w.accept(item).0;
            assert(caught_up(w, taken, start, items));
            next_keeps_caught_up(w, taken, start, items);
            stash_without(
                v,
                items,
                next,
                v.window_start,
                v.window_start + m - 1,
                v.window_start + m,
            );
            if k > v.window_start && v.slot(k) == slot {
                same_slot(v.window_start, k, m);
            }
            consume_holds(next, taken, start, items, k);
        },
    }
}

/// A packet that was processed or is stashed stays so, and one that arrives within the
/// window becomes so.
pub(crate) proof fn handling_holds(
    v: InputView,
    taken: Seq<Seq<u8>>,
    start: InputView,
    items: Seq<ArrivalView>,
    at: int,
    now: Instant,
    k: int,
)
    requires
        follows(v, taken, start, items),
        accept_all(start, items).1 is Ok,
        0 <= at < items.len(),
        tellable(v, at),
        v.config.max_queued_incoming <= 0x7FFF,
        held(v, k) || (k == at && at <= v.window_start + v.config.max_queued_incoming),
    ensures
        held(arrived(v, items, at, now), k),
{
    reveal(arrived);
    reveal(InputView::handle);
    let m = v.config.max_queued_incoming as int;
    let item = items[at];
    let p = packet_sequence_of(at);
    let data = packet_of(items, at);
    let s = true_sequence(p, v.window_start, m);
    be16_round_trip(p, item.data);
    assert(data.skip(2) =~= item.data);
    assert(ArrivalView { data: data.skip(2), is_fragment: item.is_fragment } == item);
    if v.window_start <= at <= v.window_start + m {
        sequence_recovered(at, v.window_start, m);
    }
    vstd::arithmetic::div_mod::lemma_mod_bound(k, m);
    if v.window_start <= s <= v.window_start + m {
        let noted = v.noted(p, s != v.window_start);
        unmoved_follows(v, noted, taken, start, items);
        if s == v.window_start {
            next_keeps_caught_up(noted, taken, start, items);
            accept_keeps(noted, item);
            let next = noted.accept(item).0;
            stash_moved(noted, next, items);
            consume_holds(next, taken, start, items, k);
        } else {
            vstd::arithmetic::div_mod::lemma_mod_bound(s, m);
        }
    }
}

/// What an arrival keeps.
proof fn arrival_follows(
    v: InputView,
    start: InputView,
    items: Seq<ArrivalView>,
    k: int,
    now: Instant,
)
    requires
        follows(v, Seq::empty(), start, items),
        accept_all(start, items).1 is Ok,
        0 <= k < items.len(),
        tellable(v, k),
        weighed(v),
    ensures
        ({
            let r = arrived(v, items, k, now);
            &&& follows(r, Seq::empty(), start, items)
            &&& r.config == v.config
            &&& r.stats.total_received == counted(v.stats.total_received, 1)
            &&& weighed(r)
        }),
{
    reveal(arrived);
    delivery_in_order(v, Seq::empty(), start, items, k, now);
    handling_is_counted(v, packet_of(items, k), items[k].is_fragment, now);
    handle_keeps(v, packet_of(items, k), items[k].is_fragment, now);
}

/// What holds after every arrival of a schedule.
proof fn schedule_follows(
    v: InputView,
    items: Seq<ArrivalView>,
    schedule: Seq<(int, Instant)>,
    start: Instant,
)
    requires
        v == InputView::initial(v.config, v.cipher, start),
        v.config.max_queued_incoming > 0,
        accept_all(v, items).1 is Ok,
        all_tellable(v, items, schedule),
    ensures
        ({
            let r = received_all(v, items, schedule);
            &&& follows(r, Seq::empty(), v, items)
            &&& r.config == v.config
            &&& r.stats.total_received == counted(0, schedule.len())
            &&& weighed(r)
        }),
    decreases schedule.len(),
{
    if schedule.len() == 0 {
        initial_follows(v, items, start);
    } else {
        let earlier = schedule.drop_last();
        let (k, now) = schedule.last();
        assert(schedule.take(schedule.len() - 1) =~= earlier);
        assert(tellable_at(v, items, schedule, schedule.len() - 1));
        earlier_tellable(v, items, schedule);
        schedule_follows(v, items, earlier, start);
        let before = received_all(v, items, earlier);
        arrival_follows(before, v, items, k, now);
    }
}

proof fn earlier_tellable(v: InputView, items: Seq<ArrivalView>, schedule: Seq<(int, Instant)>)
    requires
        all_tellable(v, items, schedule),
        schedule.len() > 0,
    ensures
        all_tellable(v, items, schedule.drop_last()),
{
    let earlier = schedule.drop_last();
    assert forall|i: int| 0 <= i < earlier.len() implies #[trigger] tellable_at(
        v,
        items,
        earlier,
        i,
    ) by {
        assert(tellable_at(v, items, schedule, i));
        assert(earlier.take(i) =~= schedule.take(i));
    }
}

/// A packet that has arrived within the window was processed, or is stashed.
proof fn arrived_is_held(
    v: InputView,
    items: Seq<ArrivalView>,
    schedule: Seq<(int, Instant)>,
    start: Instant,
    k: int,
)
    requires
        v == InputView::initial(v.config, v.cipher, start),
        0 < v.config.max_queued_incoming <= 0x7FFF,
        accept_all(v, items).1 is Ok,
        all_tellable(v, items, schedule),
        arrives_in_window(v, items, schedule, k),
    ensures
        held(received_all(v, items, schedule), k),
    decreases schedule.len(),
{
    let i = choose|i: int|
        0 <= i < schedule.len() && #[trigger] in_window_at(v, items, schedule, k, i);
    let earlier = schedule.drop_last();
    let last = schedule.len() - 1;
    assert(schedule.take(last) =~= earlier);
    assert(schedule[last] == schedule.last());
    earlier_tellable(v, items, schedule);
    schedule_follows(v, items, earlier, start);
    assert(tellable_at(v, items, schedule, last));
    if i < last {
        assert(earlier.take(i) =~= schedule.take(i));
        assert(in_window_at(v, items, earlier, k, i));
        arrived_is_held(v, items, earlier, start, k);
    }
    handling_holds(
        received_all(v, items, earlier),
        Seq::empty(),
        v,
        items,
        schedule.last().0,
        schedule.last().1,
        k,
    );
}

/// Whatever order packets arrive in, and however often, a new input channel hands out a
/// beginning of what they hand out one after the other; and all of it, once each of them
/// has arrived within the window. Every arrival is counted, and every byte handed out.
pub proof fn arrivals_in_any_order(
    v: InputView,
    items: Seq<ArrivalView>,
    schedule: Seq<(int, Instant)>,
    start: Instant,
)
    requires
        v == InputView::initial(v.config, v.cipher, start),
        v.config.max_queued_incoming > 0,
        accept_all(v, items).1 is Ok,
        all_tellable(v, items, schedule),
    ensures
        ({
            let r = received_all(v, items, schedule);
            let whole = accept_all(v, items).0;
            &&& r.app_data.is_prefix_of(whole.app_data)
            &&& r.window_start == items.len() ==> r.app_data == whole.app_data
            &&& v.config.max_queued_incoming <= 0x7FFF && (forall|k: int|
                0 <= k < items.len() ==> #[trigger] arrives_in_window(v, items, schedule, k))
                ==> r.window_start == items.len()
            &&& r.stats.total_received == counted(0, schedule.len())
            &&& r.stats.total_received_bytes == counted(0, total_length(r.app_data))
        }),
{
    let r = received_all(v, items, schedule);
    schedule_follows(v, items, schedule, start);
    prefix_accepted(v, items, r.window_start);
    let reached = accept_all(v, items.take(r.window_start)).0;
    accept_all_extends(reached, items.skip(r.window_start));
    assert(Seq::<Seq<u8>>::empty() + r.app_data =~= r.app_data);
    if r.window_start == items.len() {
        assert(items.take(r.window_start) =~= items);
    } else if v.config.max_queued_incoming <= 0x7FFF && (forall|k: int|
        0 <= k < items.len() ==> #[trigger] arrives_in_window(v, items, schedule, k)) {
        assert(arrives_in_window(v, items, schedule, r.window_start));
        arrived_is_held(v, items, schedule, start, r.window_start);
    }
}

/// Whatever becomes of packets on the way, a new input channel hands out a beginning of
/// what the output channel at the other end was given, piece by piece, in order and
/// nothing twice; and all of it, once each packet has arrived within the window.
pub proof fn any_schedule_delivers_in_order(
    v: InputView,
    datas: Seq<Seq<u8>>,
    max_data_length: int,
    schedule: Seq<(int, Instant)>,
    start: Instant,
)
    requires
        v == InputView::initial(v.config, v.cipher, start),
        v.config.max_queued_incoming > 0,
        all_carried(v.cipher, datas, max_data_length),
        all_tellable(v, arrivals(stream_of(v.cipher, datas, max_data_length)), schedule),
    ensures
        ({
            let items = arrivals(stream_of(v.cipher, datas, max_data_length));
            let r = received_all(v, items, schedule);
            &&& r.app_data.is_prefix_of(datas)
            &&& r.window_start == items.len() ==> r.app_data == datas
            &&& v.config.max_queued_incoming <= 0x7FFF && (forall|k: int|
                0 <= k < items.len() ==> #[trigger] arrives_in_window(v, items, schedule, k))
                ==> r.app_data == datas
        }),
{
    stream_round_trip(v, v.cipher, datas, max_data_length);
    assert(v.app_data + datas =~= datas);
    arrivals_in_any_order(
        v,
        arrivals(stream_of(v.cipher, datas, max_data_length)),
        schedule,
        start,
    );
}

/// The packets of a stream on the wire are those that its output channel sends.
pub proof fn packets_on_the_wire(
    cipher: Option<KeyView>,
    datas: Seq<Seq<u8>>,
    max_data_length: int,
    k: int,
)
    requires
        all_carried(cipher, datas, max_data_length),
        0 <= k < stream_of(cipher, datas, max_data_length).len(),
    ensures
        ({
            let stream = stream_of(cipher, datas, max_data_length);
            packet_of(arrivals(stream), k) == stream[k].payload
        }),
{
    stream_numbered(cipher, datas, max_data_length, k);
}

/// The schedule on which the first `n` packets arrive one after the other, each at its
/// time.
pub open spec fn one_after_the_other(times: Seq<Instant>, n: nat) -> Seq<(int, Instant)> {
    Seq::new(n, |i: int| (i, times[i]))
}

/// Whether nothing is stashed.
spec fn nothing_stashed(v: InputView) -> bool {
    forall|slot: int| 0 <= slot < v.stash.len() ==> (#[trigger] v.stash[slot]) is None
}

/// The packet that a channel waits for moves it on by one, while nothing is stashed.
proof fn waited_for_moves_by_one(
    v: InputView,
    start: InputView,
    items: Seq<ArrivalView>,
    now: Instant,
)
    requires
        follows(v, Seq::empty(), start, items),
        accept_all(start, items).1 is Ok,
        v.window_start < items.len(),
        nothing_stashed(v),
    ensures
        ({
            let k = v.window_start;
            let next = arrived(v, items, k, now);
            &&& next.window_start == k + 1
            &&& nothing_stashed(next)
            &&& follows(next, Seq::empty(), start, items)
            &&& tellable(v, k)
        }),
{
    reveal(arrived);
    reveal(InputView::handle);
    let k = v.window_start;
    let m = v.config.max_queued_incoming as int;
    let item = items[k];
    let data = packet_of(items, k);
    be16_round_trip(packet_sequence_of(k), item.data);
    assert(true_sequence(from_be16(data), k, m) == k);
    delivery_in_order(v, Seq::empty(), start, items, k, now);
    let noted = v.noted(from_be16(data), false);
    assert(data.skip(2) =~= item.data);
    assert(ArrivalView { data: data.skip(2), is_fragment: item.is_fragment } == item);
    unmoved_follows(v, noted, Seq::empty(), start, items);
    next_keeps_caught_up(noted, Seq::empty(), start, items);
    accept_keeps(noted, item);
    let next = noted.accept(item).0;
    vstd::arithmetic::div_mod::lemma_mod_bound(next.window_start, m);
    assert(next.stash[next.slot(next.window_start)] is None);
    assert(next.consume() == (next, Ok::<(), Error>(())));
    assert(v.handle(data, item.is_fragment, now).0 == next);
}

proof fn in_order_so_far(
    v: InputView,
    items: Seq<ArrivalView>,
    times: Seq<Instant>,
    start: Instant,
    n: nat,
)
    requires
        v == InputView::initial(v.config, v.cipher, start),
        v.config.max_queued_incoming > 0,
        accept_all(v, items).1 is Ok,
        times.len() == items.len(),
        n <= items.len(),
    ensures
        ({
            let schedule = one_after_the_other(times, n);
            let r = received_all(v, items, schedule);
            &&& all_tellable(v, items, schedule)
            &&& follows(r, Seq::empty(), v, items)
            &&& r.window_start == n
            &&& nothing_stashed(r)
        }),
    decreases n,
{
    let schedule = one_after_the_other(times, n);
    if n == 0 {
        initial_follows(v, items, start);
    } else {
        let earlier = one_after_the_other(times, (n - 1) as nat);
        in_order_so_far(v, items, times, start, (n - 1) as nat);
        assert(schedule.drop_last() =~= earlier);
        let before = received_all(v, items, earlier);
        waited_for_moves_by_one(before, v, items, times[n - 1]);
        assert forall|i: int| 0 <= i < schedule.len() implies #[trigger] tellable_at(
            v,
            items,
            schedule,
            i,
        ) by {
            if i < earlier.len() {
                assert(tellable_at(v, items, earlier, i));
                assert(earlier.take(i) =~= schedule.take(i));
            } else {
                assert(schedule.take(i) =~= earlier);
            }
        }
    }
}

/// Where every packet arrives, one after the other, a new input channel hands out all
/// that the output channel at the other end was given, piece by piece.
pub proof fn lossless_delivery_is_complete(
    v: InputView,
    datas: Seq<Seq<u8>>,
    max_data_length: int,
    times: Seq<Instant>,
    start: Instant,
)
    requires
        v == InputView::initial(v.config, v.cipher, start),
        v.config.max_queued_incoming > 0,
        all_carried(v.cipher, datas, max_data_length),
        times.len() == stream_of(v.cipher, datas, max_data_length).len(),
    ensures
        received_all(
            v,
            arrivals(stream_of(v.cipher, datas, max_data_length)),
            one_after_the_other(times, times.len()),
        ).app_data == datas,
{
    let items = arrivals(stream_of(v.cipher, datas, max_data_length));
    stream_round_trip(v, v.cipher, datas, max_data_length);
    in_order_so_far(v, items, times, start, times.len());
    any_schedule_delivers_in_order(
        v,
        datas,
        max_data_length,
        one_after_the_other(times, times.len()),
        start,
    );
}

} // verus!
