//! What an output channel cuts data into, what it sends at a tick, and what an
//! acknowledgement takes off its queue, told by bytes, sequences and the time.
use vstd::prelude::*;

use crate::channel::output::{
    later_fragments, packets, place_of, reached_exactly, sealed, sent_before, DataOutputStats,
    OutputConfig, OutputView, QueuedView, ReliableView,
};
use crate::channel::receiving::{carries, one_more};
use crate::channel::{is_told_by, packet_sequence_of, sequence_is_told_exactly};
use crate::protocol::OpCode;
use crate::rc4::KeyView;
use crate::time::Instant;
use crate::wire::{be16, be16_digits, be32_digits, number16, number32};

verus! {

/// Where there is a cipher, data goes out enciphered, behind a zero byte if it starts with
/// one then. Where there is none it goes out as it is.
pub proof fn data_is_sealed(key: KeyView, data: Seq<u8>)
    requires
        data.len() > 0,
    ensures
        carries(sealed(Some(key), data), key, data),
        sealed(None, data) == data,
{
}

/// What the fragment `k` of those that follow the first one holds.
proof fn later_fragments_laid_out(first: int, data: Seq<u8>, chunk: int, k: int)
    requires
        chunk > 0,
        0 <= k < later_fragments(first, data, chunk).len(),
    ensures
        ({
            let cut = later_fragments(first, data, chunk);
            let end = if k == cut.len() - 1 {
                data.len() as int
            } else {
                (k + 1) * chunk
            };
            &&& cut[k].sequence == first + k
            &&& cut[k].is_fragment
            &&& !cut[k].sent
            &&& 0 <= k * chunk < end <= data.len()
            &&& end - k * chunk <= chunk
            &&& cut[k].payload == be16(packet_sequence_of(first + k)) + data.subrange(
                k * chunk,
                end,
            )
        }),
    decreases k,
{
    let n = if data.len() < chunk {
        data.len() as int
    } else {
        chunk
    };
    let rest = data.skip(n);
    let more = later_fragments(first + 1, rest, chunk);
    let cut = later_fragments(first, data, chunk);
    assert(cut.len() == more.len() + 1);
    if k == 0 {
        assert(0 * chunk == 0 && 1 * chunk == chunk);
        if cut.len() == 1 {
            assert(rest.len() == 0);
        }
        assert(data.take(n) =~= data.subrange(0, n));
    } else {
        later_fragments_laid_out(first + 1, rest, chunk, k - 1);
        assert(rest.len() > 0);
        assert(n == chunk);
        assert((k - 1) * chunk + chunk == k * chunk) by (nonlinear_arith);
        assert(k * chunk + chunk == (k + 1) * chunk) by (nonlinear_arith);
        let start = (k - 1) * chunk;
        let end = if k - 1 == more.len() - 1 {
            rest.len() as int
        } else {
            k * chunk
        };
        assert(rest.subrange(start, end) =~= data.subrange(start + chunk, end + chunk));
        assert(cut[k] == more[k - 1]);
    }
}

/// Data that fits one packet goes out in one, behind the number of the packet.
pub proof fn short_data_is_one_packet(first: int, data: Seq<u8>, max_data_length: int)
    requires
        2 + data.len() <= max_data_length,
    ensures
        ({
            let cut = packets(first, data, max_data_length);
            &&& cut.len() == 1
            &&& cut[0].sequence == first
            &&& !cut[0].is_fragment
            &&& !cut[0].sent
            &&& cut[0].payload.len() == 2 + data.len()
            &&& number16(cut[0].payload, 0) == first % 0x1_0000
            &&& cut[0].payload.subrange(2, 2 + data.len() as int) == data
        }),
{
    be16_digits(packet_sequence_of(first));
    let cut = packets(first, data, max_data_length);
    assert(cut[0].payload.subrange(2, 2 + data.len() as int) =~= data);
}

/// Data that does not fit one packet goes out in fragments that are numbered one after the
/// other. Each but the last is as long as a packet may be, and each stands behind its
/// number. The first holds the length of the data. The bytes of the data are in them in
/// order, with none left out.
pub proof fn long_data_is_cut(first: int, data: Seq<u8>, max_data_length: int, k: int)
    requires
        max_data_length >= 6,
        data.len() + 2 > max_data_length,
        0 <= k < packets(first, data, max_data_length).len(),
    ensures
        ({
            let cut = packets(first, data, max_data_length);
            let start = if k == 0 {
                0
            } else {
                max_data_length - 6 + (k - 1) * (max_data_length - 2)
            };
            let header = if k == 0 {
                6int
            } else {
                2
            };
            let payload = cut[k].payload;
            &&& cut.len() >= 2
            &&& cut[k].sequence == first + k
            &&& cut[k].is_fragment
            &&& !cut[k].sent
            &&& header <= payload.len() <= max_data_length
            &&& number16(payload, 0) == (first + k) % 0x1_0000
            &&& k == 0 ==> number32(payload, 2) == data.len() % 0x1_0000_0000
            &&& k < cut.len() - 1 ==> payload.len() == max_data_length
            &&& k == cut.len() - 1 ==> start + payload.len() - header == data.len()
            &&& 0 <= start
            &&& start + payload.len() - header <= data.len()
            &&& payload.skip(header) == data.subrange(start, start + payload.len() - header)
        }),
{
    let chunk = max_data_length - 2;
    let n = chunk - 4;
    let cut = packets(first, data, max_data_length);
    let rest = data.skip(n);
    let more = later_fragments(first + 1, rest, chunk);
    be16_digits(packet_sequence_of(first + k));
    be32_digits((data.len() % 0x1_0000_0000) as u32);
    assert(rest.len() > 0);
    assert(more.len() > 0);
    if k == 0 {
        assert(cut[0].payload.skip(6) =~= data.subrange(0, n));
    } else {
        later_fragments_laid_out(first + 1, rest, chunk, k - 1);
        assert(cut[k] == more[k - 1]);
        assert((k - 1) * chunk + chunk == k * chunk) by (nonlinear_arith);
        let end = if k - 1 == more.len() - 1 {
            rest.len() as int
        } else {
            k * chunk
        };
        let start = (k - 1) * chunk;
        assert(cut[k].payload.skip(2) =~= rest.subrange(start, end));
        assert(rest.subrange(start, end) =~= data.subrange(n + start, n + end));
    }
}

/// Data is put at the end of the queue, in packets that are numbered from the next sequence
/// on. The cipher goes past it. Nothing is sent, and no data changes nothing.
pub proof fn data_is_queued(v: OutputView, data: Seq<u8>)
    ensures
        ({
            let r = v.enqueued(data);
            let added = packets(
                v.total,
                sealed(v.cipher, data),
                v.config.max_data_length as int,
            );
            if data.len() == 0 {
                r == v
            } else {
                &&& r.queue == v.queue + added
                &&& r.total == v.total + added.len()
                &&& v.cipher is Some ==> r.cipher == Some((v.cipher->0).after(data.len()))
                &&& v.cipher is None ==> r.cipher is None
                &&& r == (OutputView { queue: r.queue, total: r.total, cipher: r.cipher, ..v })
            }
        }),
{
}

proof fn sent_are_counted(queue: Seq<QueuedView>)
    ensures
        sent_before(queue) == queue.filter(|q: QueuedView| q.sent).len(),
    decreases queue.len(),
{
    reveal(Seq::filter);
    if queue.len() > 0 {
        sent_are_counted(queue.drop_last());
    }
}

/// Whether `sent` is how a packet of the queue goes out: with its payload, as a fragment
/// where it is one.
pub open spec fn is_packet_of(queued: QueuedView, sent: ReliableView) -> bool {
    &&& sent.payload == queued.payload
    &&& sent.op_code == (if queued.is_fragment {
        OpCode::ReliableDataFragment
    } else {
        OpCode::ReliableData
    })
}

/// What a tick sends: the packets of the queue from the one that is next, or from the first
/// where the remote has been silent for longer than is waited for it, up to the end of the
/// queue or of the send window. Each goes out as it stands in the queue, and is marked and
/// counted. Where there are none, nothing is sent.
pub proof fn tick_sends_window(v: OutputView, now: Instant)
    requires
        v.wf(),
    ensures
        ({
            let r = v.ticked(now);
            let from = if now.nanos > v.last_ack_at.nanos + v.config.ack_wait.nanos {
                0
            } else {
                v.next
            };
            let to = if v.queue.len() <= v.config.max_queued_outgoing {
                v.queue.len() as int
            } else {
                v.config.max_queued_outgoing as int
            };
            let again = v.queue.subrange(from, to).filter(|q: QueuedView| q.sent).len();
            let n = v.outgoing.len() as int;
            &&& r.queue.len() == v.queue.len()
            &&& forall|k: int|
                0 <= k < v.queue.len() ==> (#[trigger] r.queue[k]) == (QueuedView {
                    sent: v.queue[k].sent || from <= k < to,
                    ..v.queue[k]
                })
            &&& r == (OutputView {
                queue: r.queue,
                next: r.next,
                outgoing: r.outgoing,
                stats: r.stats,
                ..v
            })
            &&& if from < to {
                &&& r.next == to
                &&& r.outgoing.len() == n + to - from
                &&& r.outgoing.take(n) == v.outgoing
                &&& forall|k: int|
                    from <= k < to ==> is_packet_of(
                        #[trigger] v.queue[k],
                        r.outgoing[n + k - from],
                    )
                &&& r.stats.total_sent as int == (v.stats.total_sent + to - from)
                    % 0x1_0000_0000_0000_0000
                &&& r.stats.total_resent as int == (v.stats.total_resent + again)
                    % 0x1_0000_0000_0000_0000
                &&& r.stats == (DataOutputStats {
                    total_sent: r.stats.total_sent,
                    total_resent: r.stats.total_resent,
                    ..v.stats
                })
            } else {
                &&& r.next == from
                &&& r.outgoing == v.outgoing
                &&& r.stats == v.stats
            }
        }),
{
    let r = v.ticked(now);
    let from = v.dispatch_from(now);
    let to = v.dispatch_to();
    sent_are_counted(v.queue.subrange(from, to));
    if from < to {
        let n = v.outgoing.len() as int;
        assert(r.outgoing.take(n) =~= v.outgoing);
        assert forall|k: int| from <= k < to implies is_packet_of(
            #[trigger] v.queue[k],
            r.outgoing[n + k - from],
        ) by {
            assert(r.outgoing[n + k - from] == v.queue[from + (k - from)].packet());
        }
    } else {
        assert(r.queue == v.queue);
    }
}

/// Nothing is sent a second time before the remote has been silent for longer than is
/// waited for it: a tick right after another sends nothing.
pub proof fn second_tick_sends_nothing(v: OutputView, now: Instant, later: Instant)
    requires
        v.wf(),
        later.nanos <= v.last_ack_at.nanos + v.config.ack_wait.nanos,
        v.next <= v.config.max_queued_outgoing,
    ensures
        v.ticked(now).ticked(later).outgoing == v.ticked(now).outgoing,
        v.ticked(now).ticked(later).stats == v.ticked(now).stats,
{
}

/// Whether `sequence` is the one that an acknowledgement of `number` stands for to a channel.
pub open spec fn acknowledges(number: u16, sequence: int, v: OutputView) -> bool {
    is_told_by(number as int, sequence, v.max_client, v.config.max_queued_outgoing as int)
}

proof fn acknowledged_is_told(number: u16, sequence: int, v: OutputView)
    requires
        acknowledges(number, sequence, v),
    ensures
        v.acknowledged_sequence(number) == sequence,
{
    sequence_is_told_exactly(
        number,
        sequence,
        v.max_client,
        v.config.max_queued_outgoing as int,
    );
}

/// What `n` packets that are acknowledged leave besides the queue: the acknowledgement and
/// the packets are counted, the time is noted, the highest sequence that is acknowledged
/// goes up to `sequence` but never down, and sending goes on where it was, `n` places
/// further to the front.
pub open spec fn is_relieved(
    v: OutputView,
    r: OutputView,
    n: int,
    sequence: int,
    now: Instant,
) -> bool {
    &&& r.max_client >= v.max_client
    &&& r.max_client >= sequence
    &&& r.max_client == v.max_client || r.max_client == sequence
    &&& r.last_ack_at == now
    &&& n <= v.next ==> r.next == v.next - n
    &&& n > v.next ==> r.next == 0
    &&& one_more(v.stats.incoming_acknowledge_count, r.stats.incoming_acknowledge_count)
    &&& r.stats.actual_acknowledge_count as int == (v.stats.actual_acknowledge_count + n)
        % 0x1_0000_0000_0000_0000
    &&& r.stats == (DataOutputStats {
        incoming_acknowledge_count: r.stats.incoming_acknowledge_count,
        actual_acknowledge_count: r.stats.actual_acknowledge_count,
        ..v.stats
    })
    &&& r == (OutputView {
        queue: r.queue,
        max_client: r.max_client,
        last_ack_at: now,
        next: r.next,
        stats: r.stats,
        ..v
    })
}

/// An acknowledgement of everything up to a sequence takes the packets with a sequence of
/// at most that off the front of the queue, and no other.
pub proof fn everything_up_to_is_taken_off(v: OutputView, number: u16, sequence: int, now: Instant)
    requires
        v.wf(),
        acknowledges(number, sequence, v),
    ensures
        ({
            let r = v.acknowledged_all(number, now);
            let n = v.queue.len() - r.queue.len();
            &&& 0 <= n
            &&& r.queue == v.queue.skip(n)
            &&& forall|k: int| 0 <= k < n ==> (#[trigger] v.queue[k]).sequence <= sequence
            &&& forall|k: int|
                n <= k < v.queue.len() ==> (#[trigger] v.queue[k]).sequence > sequence
            &&& is_relieved(v, r, n, sequence, now)
        }),
{
    acknowledged_is_told(number, sequence, v);
    reached_exactly(v.queue, sequence);
    let r = v.acknowledged_all(number, now);
    let n = v.queue.len() - r.queue.len();
    assert forall|k: int| n <= k < v.queue.len() implies (#[trigger] v.queue[k]).sequence
        > sequence by {
        assert(r.queue[k - n] == v.queue[k]);
    }
}

/// An acknowledgement of a single packet takes that packet off the queue, wherever it
/// stands, and no other.
pub proof fn single_packet_is_taken_off(
    v: OutputView,
    number: u16,
    sequence: int,
    place: int,
    now: Instant,
)
    requires
        v.wf(),
        acknowledges(number, sequence, v),
        0 <= place < v.queue.len(),
        v.queue[place].sequence == sequence,
    ensures
        ({
            let r = v.acknowledged(number, now);
            &&& r.queue == v.queue.remove(place)
            &&& is_relieved(v, r, 1, sequence, now)
        }),
{
    acknowledged_is_told(number, sequence, v);
    let k = place_of(v.queue, sequence)->0;
    assert(k == place) by {
        if k < place {
            assert(v.queue[k].sequence < v.queue[place].sequence);
        } else if k > place {
            assert(v.queue[place].sequence < v.queue[k].sequence);
        }
    }
}

/// An acknowledgement of a packet that is not in the queue takes nothing off it.
pub proof fn other_packet_is_not_taken_off(v: OutputView, number: u16, sequence: int, now: Instant)
    requires
        acknowledges(number, sequence, v),
        forall|k: int| 0 <= k < v.queue.len() ==> (#[trigger] v.queue[k]).sequence != sequence,
    ensures
        v.acknowledged(number, now).queue == v.queue,
        is_relieved(v, v.acknowledged(number, now), 0, sequence, now),
{
    acknowledged_is_told(number, sequence, v);
}

/// A new channel has nothing queued, starts with the first sequence, and has sent nothing.
pub proof fn new_channel_has_sent_nothing(
    config: OutputConfig,
    cipher: Option<KeyView>,
    now: Instant,
)
    ensures
        ({
            let v = OutputView::initial(config, cipher, now);
            &&& v.config == config
            &&& v.cipher == cipher
            &&& v.queue.len() == 0
            &&& v.outgoing.len() == 0
            &&& v.total == 0
            &&& v.max_client == 0
            &&& v.next == 0
            &&& v.last_ack_at == now
            &&& v.stats.total_sent == 0
            &&& v.stats.total_resent == 0
            &&& v.stats.incoming_acknowledge_count == 0
            &&& v.stats.actual_acknowledge_count == 0
        }),
{
}

/// Data can be sent in packets that have room for a number and a length, and in shorter ones
/// where it fits one.
pub proof fn data_can_be_carried(v: OutputView, data: Seq<u8>)
    ensures
        v.config.max_data_length >= 6 ==> v.can_carry(data),
        data.len() + 3 <= v.config.max_data_length ==> v.can_carry(data),
        data.len() == 0 ==> v.can_carry(data),
{
}

} // verus!
