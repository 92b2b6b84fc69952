//! What comes of the packets that an input channel receives, told by their bytes, their
//! sequences and the time.
use vstd::prelude::*;

use crate::channel::input::{
    accept_keeps, consume_keeps, data_keeps, data_units, occupied, occupied_taken, unbundled,
    unpadded, ArrivalView, DataInputStats, InputConfig, InputView, OutgoingContextual,
};
use crate::channel::{counted, is_told_by, sequence_is_told_exactly, true_sequence};
use crate::error::Error;
use crate::protocol::OpCode;
use crate::rc4::{applied_twice, KeyView};
use crate::time::Instant;
use crate::varint::data_bundle;
use crate::wire::{from_be16, from_be16_digits, from_be32_digits, number16, number32};

verus! {

/// Whether `prefix` is a length that may stand in front of a data unit of `n` bytes: one
/// byte, two behind one of 255, or four behind three of 255.
pub open spec fn is_length_of(prefix: Seq<u8>, n: int) -> bool {
    ||| prefix.len() == 1 && prefix[0] < 0xFF && n == prefix[0]
    ||| prefix.len() == 3 && prefix[0] == 0xFF && n == number16(prefix, 1) && n < 0xFFFF
    ||| prefix.len() == 7 && prefix[0] == 0xFF && prefix[1] == 0xFF && prefix[2] == 0xFF && n
        == number32(prefix, 3)
}

/// Data units one after the other, each behind its length.
pub open spec fn bundled(prefixes: Seq<Seq<u8>>, units: Seq<Seq<u8>>) -> Seq<u8>
    decreases units.len(),
{
    if units.len() == 0 {
        Seq::empty()
    } else {
        prefixes[0] + units[0] + bundled(prefixes.skip(1), units.skip(1))
    }
}

/// Whether no data unit can be read from `s`: it ends within the length that it starts
/// with, or before the end of the data unit behind that.
pub open spec fn is_cut_short(s: Seq<u8>) -> bool {
    ||| s.len() == 0
    ||| s[0] < 0xFF && s.len() < 1 + s[0]
    ||| s[0] == 0xFF && s.len() < 3
    ||| s[0] == 0xFF && number16(s, 1) < 0xFFFF && s.len() < 3 + number16(s, 1)
    ||| s[0] == 0xFF && number16(s, 1) == 0xFFFF && s.len() < 7
    ||| s[0] == 0xFF && number16(s, 1) == 0xFFFF && s.len() < 7 + number32(s, 3)
}

proof fn length_is_read(prefix: Seq<u8>, n: int, rest: Seq<u8>)
    requires
        is_length_of(prefix, n),
    ensures
        data_bundle::length_at_start(prefix + rest) == Some((n as u32, prefix.len())),
        0 <= n <= u32::MAX,
{
    if prefix.len() == 1 {
        assert(prefix =~= seq![prefix[0]]);
        data_bundle::short_length_is_read(prefix[0], rest);
    } else if prefix.len() == 3 {
        assert(prefix =~= seq![0xFFu8, prefix[1], prefix[2]]);
        data_bundle::middle_length_is_read(prefix[1], prefix[2], rest);
    } else {
        assert(prefix =~= seq![
            0xFFu8,
            0xFFu8,
            0xFFu8,
            prefix[3],
            prefix[4],
            prefix[5],
            prefix[6],
        ]);
        data_bundle::long_length_is_read(prefix[3], prefix[4], prefix[5], prefix[6], rest);
    }
}

proof fn cut_is_not_read(s: Seq<u8>)
    requires
        is_cut_short(s),
    ensures
        unbundled(s) == Seq::<Seq<u8>>::empty(),
{
    if s.len() > 0 && s[0] == 0xFF && s.len() >= 3 {
        from_be16_digits(s.skip(1));
        assert(s.skip(1)[0] == s[1] && s.skip(1)[1] == s[2]);
        if s.len() >= 7 {
            from_be32_digits(s.skip(3));
        }
    }
}

proof fn units_are_read(prefixes: Seq<Seq<u8>>, units: Seq<Seq<u8>>, rest: Seq<u8>)
    requires
        prefixes.len() == units.len(),
        forall|k: int|
            0 <= k < units.len() ==> is_length_of(#[trigger] prefixes[k], units[k].len() as int),
        is_cut_short(rest),
    ensures
        unbundled(bundled(prefixes, units) + rest) == units,
    decreases units.len(),
{
    if units.len() == 0 {
        assert(bundled(prefixes, units) + rest =~= rest);
        cut_is_not_read(rest);
        assert(units =~= Seq::<Seq<u8>>::empty());
    } else {
        let more = bundled(prefixes.skip(1), units.skip(1)) + rest;
        let s = bundled(prefixes, units) + rest;
        assert(s =~= prefixes[0] + (units[0] + more));
        length_is_read(prefixes[0], units[0].len() as int, units[0] + more);
        let used = prefixes[0].len() as int;
        let n = units[0].len() as int;
        assert(s.subrange(used, used + n) =~= units[0]);
        assert(s.skip(used + n) =~= more);
        assert forall|k: int| 0 <= k < units.skip(1).len() implies is_length_of(
            #[trigger] prefixes.skip(1)[k],
            units.skip(1)[k].len() as int,
        ) by {
            assert(prefixes.skip(1)[k] == prefixes[k + 1]);
        }
        units_are_read(prefixes.skip(1), units.skip(1), rest);
        assert(seq![units[0]] + units.skip(1) =~= units);
    }
}

/// A bundle is taken apart into the data units that were put together in it, in order,
/// whichever form each length has. Bytes at its end that hold no whole data unit are left
/// out.
pub proof fn bundle_round_trip(prefixes: Seq<Seq<u8>>, units: Seq<Seq<u8>>, rest: Seq<u8>)
    requires
        prefixes.len() == units.len(),
        units.len() > 0 || rest.len() > 0,
        forall|k: int|
            0 <= k < units.len() ==> is_length_of(#[trigger] prefixes[k], units[k].len() as int),
        is_cut_short(rest),
    ensures
        data_units(seq![0x00u8, 0x19u8] + bundled(prefixes, units) + rest) == units,
{
    let data = seq![0x00u8, 0x19u8] + bundled(prefixes, units) + rest;
    assert(data.skip(2) =~= bundled(prefixes, units) + rest);
    if units.len() > 0 {
        assert(is_length_of(prefixes[0], units[0].len() as int));
    }
    units_are_read(prefixes, units, rest);
}

/// Data that does not start with the two bytes of a bundle is one data unit.
pub proof fn other_data_is_one_unit(data: Seq<u8>)
    requires
        data.len() <= 2 || data[0] != 0x00 || data[1] != 0x19,
    ensures
        data_units(data) == seq![data],
{
}

proof fn counting_twice_adds_up(counter: u64, m: nat, n: nat)
    ensures
        counted(counted(counter, m), n) == counted(counter, m + n),
{
}

proof fn plain_units_come_out(v: InputView, units: Seq<Seq<u8>>)
    requires
        v.cipher is None,
    ensures
        v.with_units(units).app_data == v.app_data + units,
        v.with_units(units).cipher is None,
        v.with_units(units).stats.total_received_bytes == counted(
            v.stats.total_received_bytes,
            units.flatten().len(),
        ),
    decreases units.len(),
{
    if units.len() > 0 {
        plain_units_come_out(v.with_unit(units[0]), units.skip(1));
        assert(units.drop_first() =~= units.skip(1));
        assert(v.app_data.push(units[0]) + units.skip(1) =~= v.app_data + units);
    } else {
        assert(v.app_data + units =~= v.app_data);
    }
}

/// Whether `unit` carries `data` enciphered by the state `key`: what comes of the cipher
/// stands in it, behind a zero byte where it starts with one.
pub open spec fn carries(unit: Seq<u8>, key: KeyView, data: Seq<u8>) -> bool {
    let c = key.applied(data);
    if c.len() > 0 && c[0] == 0 {
        unit == seq![0u8] + c
    } else {
        unit == c
    }
}

proof fn carried_unit_comes_out(v: InputView, key: KeyView, unit: Seq<u8>, data: Seq<u8>)
    requires
        v.cipher == Some(key),
        carries(unit, key, data),
    ensures
        v.with_unit(unit).app_data == v.app_data.push(data),
        v.with_unit(unit).cipher == Some(key.after(data.len())),
        v.with_unit(unit).stats.total_received_bytes == counted(
            v.stats.total_received_bytes,
            data.len(),
        ),
{
    let c = key.applied(data);
    assert(c.len() == data.len());
    assert(unpadded(unit) =~= c);
    applied_twice(key, data);
}

/// Whether each of some data units carries the data of its place, the cipher going on from
/// one to the next.
pub open spec fn all_carry(units: Seq<Seq<u8>>, key: KeyView, datas: Seq<Seq<u8>>) -> bool {
    &&& units.len() == datas.len()
    &&& forall|k: int|
        0 <= k < units.len() ==> carries(
            #[trigger] units[k],
            key.after(datas.take(k).flatten().len()),
            datas[k],
        )
}

proof fn rest_carries(units: Seq<Seq<u8>>, key: KeyView, datas: Seq<Seq<u8>>)
    requires
        units.len() > 0,
        all_carry(units, key, datas),
    ensures
        carries(units[0], key, datas[0]),
        all_carry(units.skip(1), key.after(datas[0].len()), datas.skip(1)),
{
    assert(datas.take(0).flatten().len() == 0) by {
        assert(datas.take(0).len() == 0);
    }
    assert(key.after(0) == key);
    let moved = key.after(datas[0].len());
    assert forall|k: int| 0 <= k < units.skip(1).len() implies carries(
        #[trigger] units.skip(1)[k],
        moved.after(datas.skip(1).take(k).flatten().len()),
        datas.skip(1)[k],
    ) by {
        assert(units.skip(1)[k] == units[k + 1]);
        let before = datas.take(k + 1);
        assert(before.drop_first() =~= datas.skip(1).take(k));
        assert(before.first() == datas[0]);
        assert(before.flatten() == datas[0] + datas.skip(1).take(k).flatten());
        crate::rc4::applied_is_a_stream(key, datas[0], datas.skip(1).take(k).flatten());
    }
}

proof fn carried_data_comes_out(
    v: InputView,
    key: KeyView,
    units: Seq<Seq<u8>>,
    datas: Seq<Seq<u8>>,
)
    requires
        v.cipher == Some(key),
        all_carry(units, key, datas),
    ensures
        v.with_units(units).app_data == v.app_data + datas,
        v.with_units(units).cipher == Some(key.after(datas.flatten().len())),
        v.with_units(units).stats.total_received_bytes == counted(
            v.stats.total_received_bytes,
            datas.flatten().len(),
        ),
    decreases units.len(),
{
    if units.len() == 0 {
        assert(v.app_data + datas =~= v.app_data);
        assert(key.after(0) == key);
    } else {
        let next = v.with_unit(units[0]);
        let moved = key.after(datas[0].len());
        rest_carries(units, key, datas);
        carried_unit_comes_out(v, key, units[0], datas[0]);
        carried_data_comes_out(next, moved, units.skip(1), datas.skip(1));
        assert(datas.drop_first() =~= datas.skip(1));
        let rest = datas.skip(1).flatten();
        assert(datas.flatten() == datas[0] + rest);
        assert(key.after(datas[0].len() + rest.len()) == moved.after(rest.len())) by {
            crate::rc4::applied_is_a_stream(key, datas[0], rest);
        }
        counting_twice_adds_up(v.stats.total_received_bytes, datas[0].len(), rest.len());
        assert(v.with_units(units) == next.with_units(units.skip(1)));
        assert(v.app_data.push(datas[0]) + datas.skip(1) =~= v.app_data + datas);
    }
}

/// Each data unit of a bundle is handed out, in order, and its bytes are counted.
pub proof fn bundle_is_handed_out(
    v: InputView,
    prefixes: Seq<Seq<u8>>,
    units: Seq<Seq<u8>>,
    rest: Seq<u8>,
)
    requires
        v.cipher is None,
        prefixes.len() == units.len(),
        units.len() > 0 || rest.len() > 0,
        forall|k: int|
            0 <= k < units.len() ==> is_length_of(#[trigger] prefixes[k], units[k].len() as int),
        is_cut_short(rest),
    ensures
        ({
            let r = v.with_data(seq![0x00u8, 0x19u8] + bundled(prefixes, units) + rest);
            &&& r.app_data == v.app_data + units
            &&& r.stats.total_received_bytes as int == (v.stats.total_received_bytes
                + units.flatten().len()) % 0x1_0000_0000_0000_0000
        }),
{
    reveal(InputView::with_data);
    bundle_round_trip(prefixes, units, rest);
    plain_units_come_out(v, units);
}

/// What is enciphered in each data unit of a bundle is handed out, in order. The cipher
/// goes on from one data unit to the next, past the bytes that it was applied to.
pub proof fn enciphered_bundle_is_handed_out(
    v: InputView,
    key: KeyView,
    prefixes: Seq<Seq<u8>>,
    units: Seq<Seq<u8>>,
    datas: Seq<Seq<u8>>,
    rest: Seq<u8>,
)
    requires
        v.cipher == Some(key),
        prefixes.len() == units.len(),
        units.len() > 0 || rest.len() > 0,
        forall|k: int|
            0 <= k < units.len() ==> is_length_of(#[trigger] prefixes[k], units[k].len() as int),
        all_carry(units, key, datas),
        is_cut_short(rest),
    ensures
        ({
            let r = v.with_data(seq![0x00u8, 0x19u8] + bundled(prefixes, units) + rest);
            &&& r.app_data == v.app_data + datas
            &&& r.cipher == Some(key.after(datas.flatten().len()))
            &&& r.stats.total_received_bytes as int == (v.stats.total_received_bytes
                + datas.flatten().len()) % 0x1_0000_0000_0000_0000
        }),
{
    reveal(InputView::with_data);
    bundle_round_trip(prefixes, units, rest);
    carried_data_comes_out(v, key, units, datas);
}

/// Data that is no bundle is handed out as it is, where there is no cipher.
pub proof fn plain_data_is_handed_out(v: InputView, data: Seq<u8>)
    requires
        v.cipher is None,
        data.len() <= 2 || data[0] != 0x00 || data[1] != 0x19,
    ensures
        v.with_data(data).app_data == v.app_data.push(data),
        v.with_data(data).stats.total_received_bytes as int == (v.stats.total_received_bytes
            + data.len()) % 0x1_0000_0000_0000_0000,
{
    reveal(InputView::with_data);
    other_data_is_one_unit(data);
    plain_units_come_out(v, seq![data]);
    assert(v.app_data + seq![data] =~= v.app_data.push(data));
    assert(seq![data].drop_first() =~= Seq::<Seq<u8>>::empty());
    assert(seq![data].flatten() =~= data) by {
        reveal_with_fuel(Seq::flatten, 2);
    }
}

/// Data that is no bundle is handed out deciphered, and the cipher goes past it.
pub proof fn enciphered_data_is_handed_out(v: InputView, key: KeyView, unit: Seq<u8>, data: Seq<u8>)
    requires
        v.cipher == Some(key),
        carries(unit, key, data),
        unit.len() <= 2 || unit[0] != 0x00 || unit[1] != 0x19,
    ensures
        v.with_data(unit).app_data == v.app_data.push(data),
        v.with_data(unit).cipher == Some(key.after(data.len())),
        v.with_data(unit).stats.total_received_bytes as int == (v.stats.total_received_bytes
            + data.len()) % 0x1_0000_0000_0000_0000,
{
    reveal(InputView::with_data);
    other_data_is_one_unit(unit);
    reveal_with_fuel(InputView::with_units, 2);
    assert(seq![unit].skip(1) =~= Seq::<Seq<u8>>::empty());
    carried_unit_comes_out(v, key, unit, data);
}

/// Whether a counter went up by one, or to zero from the last number that it holds.
pub open spec fn one_more(before: u64, after: u64) -> bool {
    after as int == (before + 1) % 0x1_0000_0000_0000_0000
}

/// Whether `sequence` is the one that a packet with the number `number` stands for to a
/// channel.
pub open spec fn stands_for(number: int, sequence: int, v: InputView) -> bool {
    is_told_by(number, sequence, v.window_start, v.config.max_queued_incoming as int)
}

proof fn sequence_is_told(data: Seq<u8>, sequence: int, v: InputView)
    requires
        stands_for(number16(data, 0), sequence, v),
    ensures
        from_be16(data) == number16(data, 0),
        true_sequence(from_be16(data), v.window_start, v.config.max_queued_incoming as int)
            == sequence,
{
    sequence_is_told_exactly(
        from_be16(data),
        sequence,
        v.window_start,
        v.config.max_queued_incoming as int,
    );
}

/// A packet without a sequence is counted, and nothing else comes of it.
pub proof fn bare_packet_is_counted(v: InputView, data: Seq<u8>, is_fragment: bool, now: Instant)
    requires
        data.len() < 2,
    ensures
        ({
            let (r, result) = v.handle(data, is_fragment, now);
            &&& result is Ok
            &&& one_more(v.stats.total_received, r.stats.total_received)
            &&& r.stats == (DataInputStats { total_received: r.stats.total_received, ..v.stats })
            &&& r == (InputView { stats: r.stats, ..v })
        }),
{
    reveal(InputView::handle);
}

/// A packet from further ahead than can be stashed is counted, and nothing else comes of
/// it.
pub proof fn packet_past_window_is_dropped(
    v: InputView,
    data: Seq<u8>,
    sequence: int,
    is_fragment: bool,
    now: Instant,
)
    requires
        data.len() >= 2,
        stands_for(number16(data, 0), sequence, v),
        sequence > v.window_start + v.config.max_queued_incoming,
    ensures
        ({
            let (r, result) = v.handle(data, is_fragment, now);
            &&& result is Ok
            &&& one_more(v.stats.total_received, r.stats.total_received)
            &&& r.stats == (DataInputStats { total_received: r.stats.total_received, ..v.stats })
            &&& r == (InputView { stats: r.stats, ..v })
        }),
{
    sequence_is_told(data, sequence, v);
    reveal(InputView::handle);
}

/// A packet that was processed before is counted as a duplicate. It is answered by an
/// acknowledgement of everything before the sequence that is waited for, where the last of
/// these is more than the delay ago. Nothing else comes of it.
pub proof fn duplicate_is_answered(
    v: InputView,
    data: Seq<u8>,
    sequence: int,
    is_fragment: bool,
    now: Instant,
)
    requires
        data.len() >= 2,
        stands_for(number16(data, 0), sequence, v),
        sequence < v.window_start,
    ensures
        ({
            let (r, result) = v.handle(data, is_fragment, now);
            let answered = now.nanos > v.last_ack_all_time.nanos + v.config.max_ack_delay.nanos;
            let answer = OutgoingContextual {
                op_code: OpCode::AcknowledgeAll,
                sequence: ((v.window_start - 1) % 0x1_0000) as u16,
            };
            &&& result is Ok
            &&& one_more(v.stats.total_received, r.stats.total_received)
            &&& one_more(v.stats.duplicate_count, r.stats.duplicate_count)
            &&& r.stats.out_of_order_count == v.stats.out_of_order_count
            &&& r.stats.total_received_bytes == v.stats.total_received_bytes
            &&& if answered {
                &&& r.outgoing == v.outgoing.push(answer)
                &&& r.last_ack_all == v.window_start - 1
                &&& r.last_ack_all_time == now
                &&& one_more(v.stats.acknowledge_count, r.stats.acknowledge_count)
            } else {
                &&& r.outgoing == v.outgoing
                &&& r.last_ack_all == v.last_ack_all
                &&& r.last_ack_all_time == v.last_ack_all_time
                &&& r.stats.acknowledge_count == v.stats.acknowledge_count
            }
            &&& r == (InputView {
                stats: r.stats,
                outgoing: r.outgoing,
                last_ack_all: r.last_ack_all,
                last_ack_all_time: r.last_ack_all_time,
                ..v
            })
        }),
{
    sequence_is_told(data, sequence, v);
    reveal(InputView::handle);
}

/// A packet that comes early is acknowledged on its own, under its own number, and kept
/// until it has its turn, unless one is kept in its slot already. Nothing is handed out.
pub proof fn early_packet_is_kept(
    v: InputView,
    data: Seq<u8>,
    sequence: int,
    is_fragment: bool,
    now: Instant,
)
    requires
        v.wf(),
        data.len() >= 2,
        stands_for(number16(data, 0), sequence, v),
        v.window_start < sequence <= v.window_start + v.config.max_queued_incoming,
    ensures
        ({
            let (r, result) = v.handle(data, is_fragment, now);
            let slot = sequence % (v.config.max_queued_incoming as int);
            let answer = OutgoingContextual {
                op_code: OpCode::Acknowledge,
                sequence: number16(data, 0) as u16,
            };
            &&& result is Ok
            &&& one_more(v.stats.total_received, r.stats.total_received)
            &&& one_more(v.stats.out_of_order_count, r.stats.out_of_order_count)
            &&& one_more(v.stats.acknowledge_count, r.stats.acknowledge_count)
            &&& r.stats.total_received_bytes == v.stats.total_received_bytes
            &&& r.outgoing == v.outgoing.push(answer)
            &&& r.stash.len() == v.stash.len()
            &&& forall|k: int|
                0 <= k < v.stash.len() && k != slot ==> #[trigger] r.stash[k] == v.stash[k]
            &&& match v.stash[slot] {
                Some(kept) => r.stash[slot] == Some(kept) && one_more(
                    v.stats.duplicate_count,
                    r.stats.duplicate_count,
                ),
                None => {
                    &&& r.stash[slot] matches Some(kept)
                    &&& kept.is_fragment == is_fragment
                    &&& kept.data == data.subrange(2, data.len() as int)
                    &&& r.stats.duplicate_count == v.stats.duplicate_count
                },
            }
            &&& r == (InputView { stats: r.stats, outgoing: r.outgoing, stash: r.stash, ..v })
        }),
{
    sequence_is_told(data, sequence, v);
    reveal(InputView::handle);
    vstd::arithmetic::div_mod::lemma_mod_bound(sequence, v.config.max_queued_incoming as int);
    assert(data.skip(2) =~= data.subrange(2, data.len() as int));
}

proof fn bytes_alone_are_counted(v: InputView, units: Seq<Seq<u8>>)
    ensures
        ({
            let r = v.with_units(units);
            r.stats == (DataInputStats {
                total_received_bytes: r.stats.total_received_bytes,
                ..v.stats
            })
        }),
    decreases units.len(),
{
    if units.len() > 0 {
        bytes_alone_are_counted(v.with_unit(units[0]), units.skip(1));
    }
}

proof fn accepting_counts_bytes_alone(v: InputView, arrival: ArrivalView)
    ensures
        ({
            let r = v.accept(arrival).0;
            r.stats == (DataInputStats {
                total_received_bytes: r.stats.total_received_bytes,
                ..v.stats
            })
        }),
{
    reveal(InputView::with_data);
    bytes_alone_are_counted(v, data_units(arrival.data));
    match v.with_fragment(arrival.data) {
        Ok(next) => {
            bytes_alone_are_counted(next, data_units(next.pending->0));
        },
        Err(_) => {},
    }
}

proof fn consuming_counts_bytes_alone(v: InputView)
    requires
        v.wf(),
    ensures
        ({
            let (r, result) = v.consume();
            &&& r.stats == (DataInputStats {
                total_received_bytes: r.stats.total_received_bytes,
                ..v.stats
            })
            &&& r.last_ack_all == v.last_ack_all
            &&& r.last_ack_all_time == v.last_ack_all_time
            &&& result is Ok && v.config.max_queued_incoming > 0 ==> r.stash[r.window_start % (
            v.config.max_queued_incoming as int)] is None
        }),
    decreases occupied(v.stash),
{
    let slot = v.slot(v.window_start);
    if v.config.max_queued_incoming > 0 && v.stash[slot] is Some {
        let w = v.without(slot);
        let arrival = v.stash[slot]->0;
        occupied_taken(v.stash, slot);
        accept_keeps(w, arrival);
        accepting_counts_bytes_alone(w, arrival);
        if w.accept(arrival).1 is Ok {
            consuming_counts_bytes_alone(w.accept(arrival).0);
        }
    }
}

/// The packet that is waited for is counted, acknowledged on its own just where every
/// packet is, and processed together with the kept packets that then have their turn: none
/// is left in the slot of the sequence that is waited for then.
pub proof fn awaited_packet_is_processed(
    v: InputView,
    data: Seq<u8>,
    is_fragment: bool,
    now: Instant,
)
    requires
        v.wf(),
        data.len() >= 2,
        stands_for(number16(data, 0), v.window_start, v),
    ensures
        ({
            let (r, result) = v.handle(data, is_fragment, now);
            let answer = OutgoingContextual {
                op_code: OpCode::Acknowledge,
                sequence: number16(data, 0) as u16,
            };
            &&& one_more(v.stats.total_received, r.stats.total_received)
            &&& r.stats.duplicate_count == v.stats.duplicate_count
            &&& r.stats.out_of_order_count == v.stats.out_of_order_count
            &&& if v.config.acknowledge_all_data {
                &&& r.outgoing == v.outgoing.push(answer)
                &&& one_more(v.stats.acknowledge_count, r.stats.acknowledge_count)
            } else {
                &&& r.outgoing == v.outgoing
                &&& r.stats.acknowledge_count == v.stats.acknowledge_count
            }
            &&& r.last_ack_all == v.last_ack_all
            &&& r.last_ack_all_time == v.last_ack_all_time
            &&& r.config == v.config
            &&& result is Ok ==> r.window_start > v.window_start
            &&& result is Ok && v.config.max_queued_incoming > 0 ==> r.stash[r.window_start % (
            v.config.max_queued_incoming as int)] is None
            &&& !is_fragment && v.config.max_queued_incoming == 0 ==> result is Ok
        }),
{
    sequence_is_told(data, v.window_start, v);
    reveal(InputView::handle);
    let arrival = ArrivalView { data: data.skip(2), is_fragment };
    let noted = v.noted(number16(data, 0) as u16, false);
    from_be16_digits(data);
    accept_keeps(noted, arrival);
    accepting_counts_bytes_alone(noted, arrival);
    let (next, result) = noted.accept(arrival);
    if result is Ok {
        consume_keeps(next);
        consuming_counts_bytes_alone(next);
    }
}

/// The packet that is waited for hands out what it carries behind its number, and the
/// channel waits for the next sequence, where no kept packet has its turn then.
pub proof fn awaited_data_is_handed_out(v: InputView, data: Seq<u8>, now: Instant)
    requires
        v.wf(),
        data.len() >= 2,
        stands_for(number16(data, 0), v.window_start, v),
        v.config.max_queued_incoming > 0 ==> v.stash[(v.window_start + 1) % (
        v.config.max_queued_incoming as int)] is None,
    ensures
        ({
            let (r, result) = v.handle(data, false, now);
            let handed = v.with_data(data.subrange(2, data.len() as int));
            &&& result is Ok
            &&& r.window_start == v.window_start + 1
            &&& r.app_data == handed.app_data
            &&& r.cipher == handed.cipher
            &&& r.stats.total_received_bytes == handed.stats.total_received_bytes
            &&& r.pending == v.pending
            &&& r.expected == v.expected
            &&& r.stash == v.stash
        }),
{
    sequence_is_told(data, v.window_start, v);
    reveal(InputView::handle);
    let arrival = ArrivalView { data: data.skip(2), is_fragment: false };
    assert(data.skip(2) =~= data.subrange(2, data.len() as int));
    from_be16_digits(data);
    let noted = v.noted(number16(data, 0) as u16, false);
    accept_keeps(noted, arrival);
    same_units(v, noted, arrival.data);
    data_keeps(noted, arrival.data);
}

/// What comes out of data does not depend on what was acknowledged or received before.
proof fn same_units(a: InputView, b: InputView, data: Seq<u8>)
    requires
        a.cipher == b.cipher,
        a.app_data == b.app_data,
        a.stats.total_received_bytes == b.stats.total_received_bytes,
    ensures
        a.with_data(data).cipher == b.with_data(data).cipher,
        a.with_data(data).app_data == b.with_data(data).app_data,
        a.with_data(data).stats.total_received_bytes == b.with_data(
            data,
        ).stats.total_received_bytes,
        a.stats == b.stats ==> a.with_data(data).stats == b.with_data(data).stats,
{
    reveal(InputView::with_data);
    same_units_each(a, b, data_units(data));
    bytes_alone_are_counted(a, data_units(data));
    bytes_alone_are_counted(b, data_units(data));
}

proof fn same_units_each(a: InputView, b: InputView, units: Seq<Seq<u8>>)
    requires
        a.cipher == b.cipher,
        a.app_data == b.app_data,
        a.stats.total_received_bytes == b.stats.total_received_bytes,
    ensures
        a.with_units(units).cipher == b.with_units(units).cipher,
        a.with_units(units).app_data == b.with_units(units).app_data,
        a.with_units(units).stats.total_received_bytes == b.with_units(
            units,
        ).stats.total_received_bytes,
    decreases units.len(),
{
    if units.len() > 0 {
        same_units_each(a.with_unit(units[0]), b.with_unit(units[0]), units.skip(1));
    }
}

/// The first fragment of a data unit gives its length in four bytes, without which it is
/// refused. What follows them is kept, or handed out if that is all.
pub proof fn first_fragment_is_gathered(v: InputView, data: Seq<u8>)
    requires
        v.pending is None,
    ensures
        ({
            let (r, result) = v.accept(ArrivalView { data, is_fragment: true });
            let part = data.subrange(4, data.len() as int);
            if data.len() < 4 {
                result == Err::<(), Error>(Error::UnexpectedEnd) && r == v
            } else if 4 * (data.len() - 4) > isize::MAX {
                result == Err::<(), Error>(Error::DataTooLong) && r == v
            } else if part.len() < number32(data, 0) {
                &&& result is Ok
                &&& r.pending == Some(part)
                &&& r.expected == number32(data, 0)
                &&& r == (InputView {
                    pending: r.pending,
                    expected: r.expected,
                    window_start: v.window_start + 1,
                    ..v
                })
            } else {
                let handed = v.with_data(part);
                &&& result is Ok
                &&& r == (InputView {
                    pending: None,
                    expected: 0,
                    window_start: v.window_start + 1,
                    app_data: handed.app_data,
                    cipher: handed.cipher,
                    stats: handed.stats,
                    ..v
                })
            }
        }),
{
    if data.len() >= 4 {
        assert(data.skip(4) =~= data.subrange(4, data.len() as int));
        from_be32_digits(data);
        match v.with_fragment(data) {
            Ok(next) => {
                data_keeps(next, data.skip(4));
                same_units(v, next, data.skip(4));
            },
            Err(_) => {},
        }
    }
}

/// A later fragment is put behind what is kept of its data unit, and all of it is handed
/// out once it has the length that the first one gave.
pub proof fn later_fragment_is_gathered(v: InputView, data: Seq<u8>)
    requires
        v.pending is Some,
    ensures
        ({
            let (r, result) = v.accept(ArrivalView { data, is_fragment: true });
            let whole = v.pending->0 + data;
            if 4 * whole.len() > isize::MAX {
                result == Err::<(), Error>(Error::DataTooLong) && r == v
            } else if whole.len() < v.expected {
                &&& result is Ok
                &&& r.pending == Some(whole)
                &&& r == (InputView {
                    pending: r.pending,
                    window_start: v.window_start + 1,
                    ..v
                })
            } else {
                let handed = v.with_data(whole);
                &&& result is Ok
                &&& r == (InputView {
                    pending: None,
                    expected: 0,
                    window_start: v.window_start + 1,
                    app_data: handed.app_data,
                    cipher: handed.cipher,
                    stats: handed.stats,
                    ..v
                })
            }
        }),
{
    match v.with_fragment(data) {
        Ok(next) => {
            data_keeps(next, v.pending->0 + data);
            same_units(v, next, v.pending->0 + data);
        },
        Err(_) => {},
    }
}

/// Everything before the sequence that is waited for is acknowledged at a tick just where
/// packets are not acknowledged one by one, some came in order since it was done last, and
/// that is more than the delay ago or half the acknowledgement window came in. Nothing else
/// comes of a tick.
pub proof fn tick_acknowledges_when_due(v: InputView, now: Instant)
    ensures
        ({
            let r = v.ticked(now);
            let news = v.window_start - 1 - v.last_ack_all;
            let due = !v.config.acknowledge_all_data && news > 0 && (now.nanos
                > v.last_ack_all_time.nanos + v.config.max_ack_delay.nanos || news
                >= v.config.data_ack_window / 2);
            if due {
                &&& r.outgoing == v.outgoing.push(
                    (OutgoingContextual {
                        op_code: OpCode::AcknowledgeAll,
                        sequence: ((v.window_start - 1) % 0x1_0000) as u16,
                    }),
                )
                &&& r.last_ack_all == v.window_start - 1
                &&& r.last_ack_all_time == now
                &&& one_more(v.stats.acknowledge_count, r.stats.acknowledge_count)
                &&& r.stats == (DataInputStats {
                    acknowledge_count: r.stats.acknowledge_count,
                    ..v.stats
                })
                &&& r == (InputView {
                    outgoing: r.outgoing,
                    last_ack_all: r.last_ack_all,
                    last_ack_all_time: r.last_ack_all_time,
                    stats: r.stats,
                    ..v
                })
            } else {
                r == v
            }
        }),
{
}

/// A new channel waits for the first sequence, has acknowledged nothing, and holds nothing.
pub proof fn new_channel_waits_for_first(
    config: InputConfig,
    cipher: Option<KeyView>,
    now: Instant,
)
    ensures
        ({
            let v = InputView::initial(config, cipher, now);
            &&& v.window_start == 0
            &&& v.last_ack_all == -1
            &&& v.last_ack_all_time == now
            &&& v.config == config
            &&& v.cipher == cipher
            &&& v.pending is None
            &&& v.stash.len() == config.max_queued_incoming
            &&& forall|k: int| 0 <= k < v.stash.len() ==> (#[trigger] v.stash[k]) is None
            &&& v.outgoing.len() == 0
            &&& v.app_data.len() == 0
            &&& v.stats.total_received == 0
            &&& v.stats.duplicate_count == 0
            &&& v.stats.out_of_order_count == 0
            &&& v.stats.total_received_bytes == 0
            &&& v.stats.acknowledge_count == 0
        }),
{
}

/// The packet that is waited for is processed first. Where that works the kept packets
/// follow, and where it does not the error is handed on.
pub proof fn kept_packets_follow(v: InputView, data: Seq<u8>, is_fragment: bool, now: Instant)
    requires
        data.len() >= 2,
        stands_for(number16(data, 0), v.window_start, v),
    ensures
        ({
            let answer = OutgoingContextual {
                op_code: OpCode::Acknowledge,
                sequence: number16(data, 0) as u16,
            };
            let received = DataInputStats {
                total_received: ((v.stats.total_received + 1) % 0x1_0000_0000_0000_0000) as u64,
                ..v.stats
            };
            let noted = if v.config.acknowledge_all_data {
                InputView {
                    outgoing: v.outgoing.push(answer),
                    stats: DataInputStats {
                        acknowledge_count: ((v.stats.acknowledge_count + 1)
                            % 0x1_0000_0000_0000_0000) as u64,
                        ..received
                    },
                    ..v
                }
            } else {
                InputView { stats: received, ..v }
            };
            let item = ArrivalView { data: data.subrange(2, data.len() as int), is_fragment };
            let (next, result) = noted.accept(item);
            v.handle(data, is_fragment, now) == (if result is Ok {
                next.consume()
            } else {
                (next, result)
            })
        }),
{
    sequence_is_told(data, v.window_start, v);
    reveal(InputView::handle);
    assert(data.skip(2) =~= data.subrange(2, data.len() as int));
}

/// A kept packet is taken from its slot and processed once its sequence is waited for, and
/// so are those after it. A slot without one, or an error, ends that.
pub proof fn kept_packets_have_their_turn(v: InputView)
    requires
        v.wf(),
        v.config.max_queued_incoming > 0,
    ensures
        ({
            let slot = v.window_start % (v.config.max_queued_incoming as int);
            match v.stash[slot] {
                None => v.consume() == (v, Ok::<(), Error>(())),
                Some(item) => {
                    let taken = InputView { stash: v.stash.update(slot, None), ..v };
                    let (next, result) = taken.accept(item);
                    v.consume() == (if result is Ok {
                        next.consume()
                    } else {
                        (next, result)
                    })
                },
            }
        }),
{
    vstd::arithmetic::div_mod::lemma_mod_bound(
        v.window_start,
        v.config.max_queued_incoming as int,
    );
    let slot = v.slot(v.window_start);
    if let Some(item) = v.stash[slot] {
        let taken = InputView { stash: v.stash.update(slot, None), ..v };
        assert(taken == v.without(slot));
        accept_keeps(taken, item);
        assert(taken.accept(item).1 is Ok ==> v.consume() == taken.accept(item).0.consume());
        assert(taken.accept(item).1 is Err ==> v.consume() == taken.accept(item));
    } else {
        assert(v.consume() == (v, Ok::<(), Error>(())));
    }
}

/// Whole data is handed out by the packet that carries it, without touching a data unit whose
/// fragments are still coming in.
pub proof fn whole_data_is_accepted(v: InputView, data: Seq<u8>)
    ensures
        ({
            let (r, result) = v.accept(ArrivalView { data, is_fragment: false });
            let handed = v.with_data(data);
            &&& result is Ok
            &&& r.window_start == v.window_start + 1
            &&& r.pending == v.pending
            &&& r.expected == v.expected
            &&& r == (InputView {
                window_start: r.window_start,
                app_data: handed.app_data,
                cipher: handed.cipher,
                stats: handed.stats,
                ..v
            })
        }),
{
    data_keeps(v, data);
}

/// Any data unit is handed out as the cipher makes it: without the zero byte that it starts
/// with, where it has more than that one, and as it is otherwise. The cipher goes past what
/// it was applied to.
pub proof fn any_unit_is_deciphered(v: InputView, key: KeyView, unit: Seq<u8>)
    requires
        v.cipher == Some(key),
    ensures
        ({
            let c = if unit.len() >= 2 && unit[0] == 0 {
                unit.subrange(1, unit.len() as int)
            } else {
                unit
            };
            let r = v.with_unit(unit);
            &&& r.app_data == v.app_data.push(key.applied(c))
            &&& r.cipher == Some(key.after(c.len()))
            &&& r.stats.total_received_bytes as int == (v.stats.total_received_bytes + c.len())
                % 0x1_0000_0000_0000_0000
        }),
{
    if unit.len() >= 2 {
        assert(unit.skip(1) =~= unit.subrange(1, unit.len() as int));
    }
}

/// What data carries comes out one data unit after the other.
pub proof fn units_come_out_in_turn(
    v: InputView,
    first: Seq<u8>,
    others: Seq<Seq<u8>>,
    data: Seq<u8>,
)
    ensures
        v.with_units(seq![first] + others) == v.with_unit(first).with_units(others),
        v.with_units(Seq::empty()) == v,
        v.with_data(data) == v.with_units(data_units(data)),
{
    reveal(InputView::with_data);
    let all = seq![first] + others;
    assert(all.skip(1) =~= others);
    assert(all[0] == first);
}

/// Handing data out moves the cipher and counts the bytes, and does nothing else.
pub proof fn data_alone_comes_out(v: InputView, data: Seq<u8>)
    ensures
        ({
            let r = v.with_data(data);
            &&& r.stats == (DataInputStats {
                total_received_bytes: r.stats.total_received_bytes,
                ..v.stats
            })
            &&& r == (InputView { cipher: r.cipher, stats: r.stats, app_data: r.app_data, ..v })
        }),
{
    data_keeps(v, data);
    reveal(InputView::with_data);
    bytes_alone_are_counted(v, data_units(data));
}

} // verus!
