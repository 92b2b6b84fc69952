//! Sending reliable data: application data is enciphered, cut into numbered packets
//! that fit the remote, and sent again until the remote acknowledges it.
//!
//! The channel does no I/O. Each tick moves the packets that are due into a buffer from
//! which they are taken. Acknowledgements are handed to the channel.
use std::collections::VecDeque;

use bytes::Bytes;
use vstd::prelude::*;

use crate::buffer::{self, content, content_mut, fits};
use crate::channel::{counted, packet_sequence_of, true_incoming_sequence, true_sequence};
use crate::constants::MAX_SEQUENCE;
use crate::protocol::OpCode;
use crate::rc4::{KeyView, Rc4KeyState};
use crate::time::{elapsed, Duration, Instant};
use crate::wire::{be16, be32};

verus! {

/// The size of a reliable data packet's sequence prefix.
pub const SEQUENCE_SIZE: usize = 2;

/// The size of a master fragment's total-length prefix.
pub const FRAGMENT_LENGTH_SIZE: usize = 4;

/// Statistics gathered while sending reliable data. A counter that overflows starts
/// again at zero.
#[derive(Debug, Clone, Copy)]
pub struct DataOutputStats {
    /// Total reliable data packets dispatched, including re-sends.
    pub total_sent: u64,
    /// Total reliable data packets that were re-sent.
    pub total_resent: u64,
    /// Total acknowledgement packets received (including ack-alls).
    pub incoming_acknowledge_count: u64,
    /// Total reliable data packets acknowledged (including via ack-all).
    pub actual_acknowledge_count: u64,
}

/// Statistics of a channel that has sent nothing.
pub open spec fn no_output_stats() -> DataOutputStats {
    DataOutputStats {
        total_sent: 0,
        total_resent: 0,
        incoming_acknowledge_count: 0,
        actual_acknowledge_count: 0,
    }
}

impl Default for DataOutputStats {
    fn default() -> (r: Self)
        ensures
            r == no_output_stats(),
    {
        DataOutputStats {
            total_sent: 0,
            total_resent: 0,
            incoming_acknowledge_count: 0,
            actual_acknowledge_count: 0,
        }
    }
}

/// Configuration controlling the output channel's behaviour.
#[derive(Debug, Clone, Copy)]
pub struct OutputConfig {
    /// The maximum length, in bytes, of the data portion (sequence + data) of a
    /// single reliable data packet. This is the remote UDP length minus the OP code
    /// and CRC.
    pub max_data_length: usize,
    /// The maximum number of unacknowledged reliable data packets that may be in
    /// flight at once (the send window).
    pub max_queued_outgoing: usize,
    /// How long to wait for an acknowledgement before resending from the start of
    /// the window.
    pub ack_wait: Duration,
}

impl Default for OutputConfig {
    fn default() -> (r: Self)
        ensures
            r.max_data_length == 508,
            r.max_queued_outgoing == 196,
            r.ack_wait.nanos == 500_000_000,
    {
        OutputConfig {
            max_data_length: 508,
            max_queued_outgoing: 196,
            ack_wait: Duration::from_millis(500),
        }
    }
}

/// A reliable data packet the channel wishes to send (without OP code or CRC
/// framing, which the session layer applies).
#[derive(Debug, PartialEq, Eq)]
pub struct OutgoingReliable {
    /// The OP code of the packet ([`OpCode::ReliableData`] or
    /// [`OpCode::ReliableDataFragment`]).
    pub op_code: OpCode,
    /// The packet payload: a big-endian `u16` sequence, an optional big-endian `u32`
    /// total-length prefix (master fragments only), and the data chunk.
    pub payload: Bytes,
}

/// A reliable data packet to send, by the bytes it holds.
pub struct ReliableView {
    /// The OP code of the packet.
    pub op_code: OpCode,
    /// The packet payload.
    pub payload: Seq<u8>,
}

impl View for OutgoingReliable {
    type V = ReliableView;

    open spec fn view(&self) -> ReliableView {
        ReliableView { op_code: self.op_code, payload: content(self.payload) }
    }
}

impl Clone for OutgoingReliable {
    fn clone(&self) -> (r: Self)
        ensures
            r@ == self@,
    {
        OutgoingReliable { op_code: self.op_code, payload: self.payload.clone() }
    }
}

/// Reliable data packets to send, by the bytes they hold.
pub open spec fn reliable_views(s: Seq<OutgoingReliable>) -> Seq<ReliableView> {
    Seq::new(s.len(), |k: int| s[k]@)
}

/// A packet that awaits acknowledgement.
pub struct QueuedView {
    /// The sequence of the packet.
    pub sequence: int,
    /// Whether the packet is a fragment of a data unit.
    pub is_fragment: bool,
    /// The packet payload.
    pub payload: Seq<u8>,
    /// Whether the packet was sent before.
    pub sent: bool,
}

impl QueuedView {
    /// The packet as it is sent.
    pub open spec fn packet(self) -> ReliableView {
        ReliableView {
            op_code: if self.is_fragment {
                OpCode::ReliableDataFragment
            } else {
                OpCode::ReliableData
            },
            payload: self.payload,
        }
    }
}

/// What an output channel holds.
#[verifier::ext_equal]
pub struct OutputView {
    /// How the channel is configured.
    pub config: OutputConfig,
    /// The cipher state, where application data is enciphered.
    pub cipher: Option<KeyView>,
    /// The packets that await acknowledgement, in the order of their sequences.
    pub queue: Seq<QueuedView>,
    /// The sequence of the next packet.
    pub total: int,
    /// The highest sequence that the remote is known to have received.
    pub max_client: int,
    /// The place in the queue of the packet to send next.
    pub next: int,
    /// When the last acknowledgement came in.
    pub last_ack_at: Instant,
    /// Packets to send that were not yet taken.
    pub outgoing: Seq<ReliableView>,
    /// The statistics.
    pub stats: DataOutputStats,
}

/// Application data as it goes into packets: enciphered where there is a cipher, and
/// then padded with a zero byte in front where it starts with one.
pub open spec fn sealed(cipher: Option<KeyView>, data: Seq<u8>) -> Seq<u8> {
    match cipher {
        Some(key) => if key.applied(data)[0] == 0 {
            seq![0u8] + key.applied(data)
        } else {
            key.applied(data)
        },
        None => data,
    }
}

/// The fragments that follow the first one: chunks of `chunk` bytes, the last of which
/// may be shorter, each behind its sequence.
pub open spec fn later_fragments(first: int, data: Seq<u8>, chunk: int) -> Seq<QueuedView>
    decreases data.len(),
{
    if data.len() == 0 || chunk <= 0 {
        Seq::empty()
    } else {
        let n = if data.len() < chunk {
            data.len() as int
        } else {
            chunk
        };
        seq![
            QueuedView {
                sequence: first,
                is_fragment: true,
                payload: be16(packet_sequence_of(first)) + data.take(n),
                sent: false,
            },
        ] + later_fragments(first + 1, data.skip(n), chunk)
    }
}

/// The packets that carry `data`, numbered from `first` on. What does not fit one
/// packet is cut into fragments, the first of which holds the length of it all.
pub open spec fn packets(first: int, data: Seq<u8>, max_data_length: int) -> Seq<QueuedView> {
    let chunk = max_data_length - SEQUENCE_SIZE;
    if data.len() <= chunk {
        seq![
            QueuedView {
                sequence: first,
                is_fragment: false,
                payload: be16(packet_sequence_of(first)) + data,
                sent: false,
            },
        ]
    } else {
        let n = chunk - FRAGMENT_LENGTH_SIZE;
        seq![
            QueuedView {
                sequence: first,
                is_fragment: true,
                payload: be16(packet_sequence_of(first)) + be32(
                    (data.len() % 0x1_0000_0000) as u32,
                ) + data.take(n),
                sent: false,
            },
        ] + later_fragments(first + 1, data.skip(n), chunk)
    }
}

/// The place of a sequence in a queue, if it is there.
pub open spec fn place_of(queue: Seq<QueuedView>, sequence: int) -> Option<int> {
    if exists|k: int| 0 <= k < queue.len() && (#[trigger] queue[k]).sequence == sequence {
        Some(choose|k: int| 0 <= k < queue.len() && (#[trigger] queue[k]).sequence == sequence)
    } else {
        None
    }
}

/// How many packets at the front of a queue have a sequence of at most `sequence`.
pub open spec fn reached(queue: Seq<QueuedView>, sequence: int) -> nat
    decreases queue.len(),
{
    if queue.len() > 0 && queue[0].sequence <= sequence {
        1 + reached(queue.skip(1), sequence)
    } else {
        0
    }
}

/// How many packets of a queue were sent before.
pub open spec fn sent_before(queue: Seq<QueuedView>) -> nat
    decreases queue.len(),
{
    if queue.len() == 0 {
        0
    } else {
        sent_before(queue.drop_last()) + (if queue.last().sent {
            1nat
        } else {
            0
        })
    }
}

impl OutputView {
    /// What holds of a channel at all times.
    pub open spec fn wf(self) -> bool {
        &&& 0 <= self.total
        &&& 0 <= self.max_client
        &&& 0 <= self.next <= self.queue.len()
        &&& forall|k: int| 0 <= k < self.queue.len() ==> 0 <= (#[trigger] self.queue[k]).sequence
            < self.total
        &&& forall|j: int, k: int|
            0 <= j < k < self.queue.len() ==> (#[trigger] self.queue[j]).sequence < (
            #[trigger] self.queue[k]).sequence
        &&& forall|k: int|
            0 <= k < self.queue.len() && (#[trigger] self.queue[k]).sent ==> k
                < self.config.max_queued_outgoing
    }

    /// A channel that was given nothing to send.
    pub open spec fn initial(config: OutputConfig, cipher: Option<KeyView>, now: Instant) -> Self {
        OutputView {
            config,
            cipher,
            queue: Seq::empty(),
            total: 0,
            max_client: 0,
            next: 0,
            last_ack_at: now,
            outgoing: Seq::empty(),
            stats: no_output_stats(),
        }
    }

    /// Whether `data` can be cut into packets. A first fragment needs room for the
    /// sequence and the length.
    pub open spec fn can_carry(self, data: Seq<u8>) -> bool {
        ||| data.len() == 0
        ||| self.config.max_data_length >= SEQUENCE_SIZE + FRAGMENT_LENGTH_SIZE
        ||| sealed(self.cipher, data).len() + SEQUENCE_SIZE <= self.config.max_data_length
    }

    /// The channel once it was given `data` to send.
    pub open spec fn enqueued(self, data: Seq<u8>) -> Self {
        if data.len() == 0 {
            self
        } else {
            let added = packets(
                self.total,
                sealed(self.cipher, data),
                self.config.max_data_length as int,
            );
            OutputView {
                cipher: match self.cipher {
                    Some(key) => Some(key.after(data.len())),
                    None => None,
                },
                queue: self.queue + added,
                total: self.total + added.len(),
                ..self
            }
        }
    }

    /// Where sending goes on: at the front of the queue, once the remote has been
    /// silent for too long.
    pub open spec fn dispatch_from(self, now: Instant) -> int {
        if elapsed(now, self.last_ack_at).nanos > self.config.ack_wait.nanos {
            0
        } else {
            self.next
        }
    }

    /// Where sending ends: at the end of the send window or of the queue.
    pub open spec fn dispatch_to(self) -> int {
        if self.queue.len() < self.config.max_queued_outgoing {
            self.queue.len() as int
        } else {
            self.config.max_queued_outgoing as int
        }
    }

    /// The channel once it has sent the packets at `from` up to `to`.
    pub open spec fn dispatched(self, from: int, to: int) -> Self {
        OutputView {
            queue: Seq::new(
                self.queue.len(),
                |k: int|
                    QueuedView { sent: self.queue[k].sent || from <= k < to, ..self.queue[k] },
            ),
            next: to,
            outgoing: self.outgoing + Seq::new(
                (to - from) as nat,
                |k: int| self.queue[from + k].packet(),
            ),
            stats: DataOutputStats {
                total_sent: counted(self.stats.total_sent, (to - from) as nat),
                total_resent: counted(
                    self.stats.total_resent,
                    sent_before(self.queue.subrange(from, to)),
                ),
                ..self.stats
            },
            ..self
        }
    }

    /// The channel after its periodic work.
    pub open spec fn ticked(self, now: Instant) -> Self {
        let from = self.dispatch_from(now);
        let to = self.dispatch_to();
        if from < to {
            self.dispatched(from, to)
        } else {
            OutputView { next: from, ..self }
        }
    }

    /// The sequence that an acknowledgement stands for.
    pub open spec fn acknowledged_sequence(self, packet_sequence: u16) -> int {
        true_sequence(
            packet_sequence,
            self.max_client,
            self.config.max_queued_outgoing as int,
        )
    }

    /// The channel once `n` packets, which `queue` no longer holds, were acknowledged
    /// up to `sequence`.
    pub open spec fn relieved(
        self,
        queue: Seq<QueuedView>,
        n: nat,
        sequence: int,
        now: Instant,
    ) -> Self {
        OutputView {
            queue,
            next: if self.next < n {
                0
            } else {
                self.next - n
            },
            max_client: if sequence > self.max_client {
                sequence
            } else {
                self.max_client
            },
            last_ack_at: now,
            stats: DataOutputStats {
                incoming_acknowledge_count: counted(self.stats.incoming_acknowledge_count, 1),
                actual_acknowledge_count: counted(self.stats.actual_acknowledge_count, n),
                ..self.stats
            },
            ..self
        }
    }

    /// The channel once the remote has acknowledged a single packet.
    pub open spec fn acknowledged(self, packet_sequence: u16, now: Instant) -> Self {
        let sequence = self.acknowledged_sequence(packet_sequence);
        match place_of(self.queue, sequence) {
            Some(k) => self.relieved(self.queue.remove(k), 1, sequence, now),
            None => self.relieved(self.queue, 0, sequence, now),
        }
    }

    /// The channel once the remote has acknowledged all packets up to a sequence.
    pub open spec fn acknowledged_all(self, packet_sequence: u16, now: Instant) -> Self {
        let sequence = self.acknowledged_sequence(packet_sequence);
        let n = reached(self.queue, sequence);
        self.relieved(self.queue.skip(n as int), n, sequence, now)
    }
}

/// Fragments are numbered one after the other, are not sent yet, and are no more than
/// the bytes they carry.
pub proof fn later_fragments_numbered(first: int, data: Seq<u8>, chunk: int)
    ensures
        ({
            let f = later_fragments(first, data, chunk);
            &&& f.len() <= data.len()
            &&& forall|k: int|
                0 <= k < f.len() ==> (#[trigger] f[k]).sequence == first + k && !f[k].sent
                    && f[k].is_fragment && f[k].payload.len() <= SEQUENCE_SIZE + chunk
                    && f[k].payload == be16(packet_sequence_of(first + k)) + f[k].payload.skip(2)
        }),
    decreases data.len(),
{
    if data.len() > 0 && chunk > 0 {
        let n = if data.len() < chunk {
            data.len() as int
        } else {
            chunk
        };
        later_fragments_numbered(first + 1, data.skip(n), chunk);
        let f = later_fragments(first, data, chunk);
        let others = later_fragments(first + 1, data.skip(n), chunk);
        assert forall|k: int| 0 <= k < f.len() implies (#[trigger] f[k]).payload == be16(
            packet_sequence_of(first + k),
        ) + f[k].payload.skip(2) by {
            if k == 0 {
                assert(f[0].payload =~= be16(packet_sequence_of(first)) + f[0].payload.skip(2));
            } else {
                assert(f[k] == others[k - 1]);
            }
        }
    }
}

/// The packets that carry data are numbered one after the other, are not sent yet, are
/// at most one more than the bytes they carry, and fit the length that they may have.
pub proof fn packets_numbered(first: int, data: Seq<u8>, max_data_length: int)
    requires
        max_data_length >= SEQUENCE_SIZE + FRAGMENT_LENGTH_SIZE || data.len() + SEQUENCE_SIZE
            <= max_data_length,
    ensures
        ({
            let p = packets(first, data, max_data_length);
            &&& 1 <= p.len() <= data.len() + 1
            &&& forall|k: int|
                0 <= k < p.len() ==> (#[trigger] p[k]).sequence == first + k && !p[k].sent
                    && p[k].payload.len() <= max_data_length && p[k].payload == be16(
                    packet_sequence_of(first + k),
                ) + p[k].payload.skip(2)
        }),
{
    let chunk = max_data_length - SEQUENCE_SIZE;
    let p = packets(first, data, max_data_length);
    let others = later_fragments(first + 1, data.skip(chunk - FRAGMENT_LENGTH_SIZE), chunk);
    later_fragments_numbered(first + 1, data.skip(chunk - FRAGMENT_LENGTH_SIZE), chunk);
    assert forall|k: int| 0 <= k < p.len() implies (#[trigger] p[k]).payload == be16(
        packet_sequence_of(first + k),
    ) + p[k].payload.skip(2) by {
        if k == 0 {
            assert(p[0].payload =~= be16(packet_sequence_of(first)) + p[0].payload.skip(2));
        } else {
            assert(p[k] == others[k - 1]);
        }
    }
}

/// Giving a channel data to send keeps it well formed.
pub proof fn enqueue_keeps(v: OutputView, data: Seq<u8>)
    requires
        v.wf(),
        v.can_carry(data),
    ensures
        v.enqueued(data).wf(),
        v.total <= v.enqueued(data).total <= v.total + data.len() + 2,
{
    if data.len() > 0 {
        packets_numbered(v.total, sealed(v.cipher, data), v.config.max_data_length as int);
    }
}

/// A tick keeps a channel well formed.
pub proof fn tick_keeps(v: OutputView, now: Instant)
    requires
        v.wf(),
    ensures
        v.ticked(now).wf(),
{
}

/// The packets at the front of a queue that have a sequence of at most `sequence` are
/// all that have one.
pub proof fn reached_exactly(queue: Seq<QueuedView>, sequence: int)
    requires
        forall|j: int, k: int|
            0 <= j < k < queue.len() ==> (#[trigger] queue[j]).sequence < (
            #[trigger] queue[k]).sequence,
    ensures
        reached(queue, sequence) <= queue.len(),
        forall|k: int|
            0 <= k < queue.len() ==> ((#[trigger] queue[k]).sequence <= sequence <==> k < reached(
                queue,
                sequence,
            )),
    decreases queue.len(),
{
    if queue.len() > 0 && queue[0].sequence <= sequence {
        let rest = queue.skip(1);
        reached_exactly(rest, sequence);
        assert forall|k: int| 0 <= k < queue.len() implies ((#[trigger] queue[k]).sequence
            <= sequence <==> k < reached(queue, sequence)) by {
            if k > 0 {
                assert(rest[k - 1] == queue[k]);
            }
        }
    }
}

/// An acknowledgement keeps a channel well formed.
pub proof fn acknowledge_keeps(v: OutputView, packet_sequence: u16, now: Instant)
    requires
        v.wf(),
    ensures
        v.acknowledged(packet_sequence, now).wf(),
        v.acknowledged_all(packet_sequence, now).wf(),
        v.acknowledged(packet_sequence, now).max_client <= v.max_client + 0x2_0000,
        v.acknowledged_all(packet_sequence, now).max_client <= v.max_client + 0x2_0000,
{
    let sequence = v.acknowledged_sequence(packet_sequence);
    reached_exactly(v.queue, sequence);
}

/// A packet that awaits acknowledgement.
#[derive(Debug)]
struct StashedOutputPacket {
    is_fragment: bool,
    data: Bytes,
    sent: bool,
}

/// `VecDeque::index_mut`: the item at `at`, to be changed in place. It panics where
/// there is no such item, which `requires` rules out.
#[verifier::external_body]
fn item_mut(queue: &mut VecDeque<(i64, StashedOutputPacket)>, at: usize) -> (item: &mut (
    i64,
    StashedOutputPacket,
))
    requires
        at < old(queue)@.len(),
    ensures
        *item == old(queue)@[at as int],
        final(queue)@ == old(queue)@.update(at as int, *final(item)),
{
    &mut queue[at]
}

/// What a queue holds.
closed spec fn queue_view(queue: Seq<(i64, StashedOutputPacket)>) -> Seq<QueuedView> {
    Seq::new(
        queue.len(),
        |k: int|
            QueuedView {
                sequence: queue[k].0 as int,
                is_fragment: queue[k].1.is_fragment,
                payload: content(queue[k].1.data),
                sent: queue[k].1.sent,
            },
    )
}

/// Converts application data into ordered, fragmented reliable data packets.
#[derive(Debug)]
pub struct ReliableDataOutputChannel {
    config: OutputConfig,
    cipher: Option<Rc4KeyState>,
    dispatch_queue: VecDeque<(i64, StashedOutputPacket)>,
    /// The total number of sequences that have been output.
    total_sequence: i64,
    /// The maximum sequence number that the client is known to have received.
    max_client_sequence: i64,
    /// The index into `dispatch_queue` of the next packet to dispatch.
    current_dispatch_index: usize,
    last_ack_at: Instant,
    outgoing: Vec<OutgoingReliable>,
    stats: DataOutputStats,
}

impl View for ReliableDataOutputChannel {
    type V = OutputView;

    closed spec fn view(&self) -> OutputView {
        OutputView {
            config: self.config,
            cipher: match self.cipher {
                Some(key) => Some(key@),
                None => None,
            },
            queue: queue_view(self.dispatch_queue@),
            total: self.total_sequence as int,
            max_client: self.max_client_sequence as int,
            next: self.current_dispatch_index as int,
            last_ack_at: self.last_ack_at,
            outgoing: reliable_views(self.outgoing@),
            stats: self.stats,
        }
    }
}

impl ReliableDataOutputChannel {
    /// Creates a new output channel. `cipher` is the initial RC4 key state; pass
    /// `Some(..)` to enable RC4 encryption of the proxied application data, or `None`
    /// to pass it through unencrypted.
    pub fn new(config: OutputConfig, cipher: Option<Rc4KeyState>, now: Instant) -> (r: Self)
        ensures
            r@ == OutputView::initial(
                config,
                match cipher {
                    Some(key) => Some(key@),
                    None => None,
                },
                now,
            ),
            r@.wf(),
    {
        let r = ReliableDataOutputChannel {
            config,
            cipher,
            dispatch_queue: VecDeque::new(),
            total_sequence: 0,
            max_client_sequence: 0,
            current_dispatch_index: 0,
            last_ack_at: now,
            outgoing: Vec::new(),
            stats: DataOutputStats::default(),
        };
        assert(r@.queue =~= Seq::<QueuedView>::empty());
        assert(r@.outgoing =~= Seq::<ReliableView>::empty());
        r
    }

    /// Returns the gathered output statistics.
    pub fn stats(&self) -> (r: &DataOutputStats)
        ensures
            *r == self@.stats,
    {
        &self.stats
    }

    /// How the channel is configured.
    pub fn config(&self) -> (r: &OutputConfig)
        ensures
            *r == self@.config,
    {
        &self.config
    }

    /// The sequence of the next packet.
    pub fn total_sequence(&self) -> (n: i64)
        ensures
            n == self@.total,
    {
        self.total_sequence
    }

    /// The highest sequence that the remote is known to have received.
    pub fn max_client_sequence(&self) -> (n: i64)
        ensures
            n == self@.max_client,
    {
        self.max_client_sequence
    }

    /// Drains the outgoing reliable data packets accumulated so far.
    pub fn take_outgoing(&mut self) -> (out: Vec<OutgoingReliable>)
        ensures
            reliable_views(out@) == old(self)@.outgoing,
            final(self)@ == (OutputView { outgoing: Seq::empty(), ..old(self)@ }),
    {
        let mut out: Vec<OutgoingReliable> = Vec::new();
        core::mem::swap(&mut out, &mut self.outgoing);
        assert(self@.outgoing =~= Seq::<ReliableView>::empty());
        out
    }

    /// Returns the number of reliable data packets currently awaiting acknowledgement.
    pub fn queued_len(&self) -> (n: usize)
        ensures
            n == self@.queue.len(),
    {
        self.dispatch_queue.len()
    }

    /// Sets the maximum length of the data portion (sequence + data) of a single
    /// packet. Should not be called after data has been enqueued.
    pub fn set_max_data_length(&mut self, max_data_length: usize)
        ensures
            final(self)@ == (OutputView {
                config: OutputConfig { max_data_length, ..old(self)@.config },
                ..old(self)@
            }),
    {
        self.config.max_data_length = max_data_length;
    }

    fn max_chunk(&self) -> (n: usize)
        requires
            self@.config.max_data_length >= SEQUENCE_SIZE,
        ensures
            n == self@.config.max_data_length - SEQUENCE_SIZE,
    {
        self.config.max_data_length - SEQUENCE_SIZE
    }

    /// Enqueues application data to be sent on the reliable channel. The data is
    /// fragmented as required to fit within the configured maximum packet length.
    pub fn enqueue_data(&mut self, data: &[u8])
        requires
            old(self)@.wf(),
            old(self)@.can_carry(data@),
            old(self)@.total <= MAX_SEQUENCE,
            fits(data@.len() + 7),
        ensures
            final(self)@ == old(self)@.enqueued(data@),
            final(self)@.wf(),
    {
        let ghost v = self@;
        proof {
            enqueue_keeps(v, data@);
        }
        if data.len() == 0 {
            return;
        }
        let mut remaining: Bytes = match &mut self.cipher {
            Some(cipher) => encrypt(cipher, data),
            None => buffer::copy_from_slice(data),
        };
        let ghost whole = content(remaining);
        let ghost sealing = self@;
        let is_fragment = buffer::as_slice(&remaining).len() > self.max_chunk();
        self.stash_fragment(&mut remaining, true, is_fragment);
        let ghost stashed = self@;
        let ghost later = later_fragments(
            stashed.total,
            content(remaining),
            v.config.max_data_length - SEQUENCE_SIZE,
        );
        self.stash_rest(remaining);
        proof {
            let all = packets(v.total, whole, v.config.max_data_length as int);
            assert(all[0].payload =~= stashed.queue.last().payload);
            assert(all =~= seq![stashed.queue.last()] + later);
            assert(self@.queue =~= sealing.queue + all);
            assert(self@ =~= v.enqueued(data@));
        }
    }

    /// Stashes what follows a first fragment.
    fn stash_rest(&mut self, rest: Bytes)
        requires
            0 <= old(self)@.total <= 2 * MAX_SEQUENCE,
            content(rest).len() > 0 ==> old(self)@.config.max_data_length >= SEQUENCE_SIZE
                + FRAGMENT_LENGTH_SIZE,
            fits(content(rest).len() + 6),
        ensures
            ({
                let v = old(self)@;
                let added = later_fragments(
                    v.total,
                    content(rest),
                    v.config.max_data_length - SEQUENCE_SIZE,
                );
                final(self)@ == (OutputView {
                    queue: v.queue + added,
                    total: v.total + added.len(),
                    ..v
                })
            }),
    {
        let ghost v = self@;
        let ghost chunk = v.config.max_data_length - SEQUENCE_SIZE;
        let ghost target = v.queue + later_fragments(v.total, content(rest), chunk);
        let mut remaining = rest;
        while buffer::as_slice(&remaining).len() > 0
            invariant
                chunk == v.config.max_data_length - SEQUENCE_SIZE,
                content(remaining).len() > 0 ==> chunk >= FRAGMENT_LENGTH_SIZE,
                fits(content(remaining).len() + 6),
                0 <= self@.total,
                self@.total + content(remaining).len() <= 3 * MAX_SEQUENCE,
                self@.total - v.total == self@.queue.len() - v.queue.len(),
                target == self@.queue + later_fragments(self@.total, content(remaining), chunk),
                self@ == (OutputView { queue: self@.queue, total: self@.total, ..v }),
            decreases content(remaining).len(),
        {
            let ghost before = self@;
            let ghost left = content(remaining);
            self.stash_fragment(&mut remaining, false, true);
            proof {
                let added = later_fragments(before.total, left, chunk);
                let later = later_fragments(self@.total, content(remaining), chunk);
                assert(added[0].payload =~= self@.queue.last().payload);
                assert(added =~= seq![self@.queue.last()] + later);
                assert(target =~= self@.queue + later);
            }
        }
        assert(self@.queue =~= target);
    }

    /// Runs a tick of the output channel, moving due packets into the outgoing
    /// buffer. If no acknowledgement has been received within the configured
    /// `ack_wait`, dispatch restarts from the front of the window.
    pub fn run_tick(&mut self, now: Instant)
        requires
            old(self)@.wf(),
        ensures
            final(self)@ == old(self)@.ticked(now),
            final(self)@.wf(),
    {
        let ghost v = self@;
        proof {
            tick_keeps(v, now);
        }
        let waited = now.duration_since(self.last_ack_at);
        if waited.exceeds(&self.config.ack_wait) {
            self.current_dispatch_index = 0;
        }
        let max_index: usize = if self.dispatch_queue.len() < self.config.max_queued_outgoing {
            self.dispatch_queue.len()
        } else {
            self.config.max_queued_outgoing
        };
        if self.current_dispatch_index >= max_index {
            return;
        }
        let ghost from = v.dispatch_from(now);
        assert(self@ =~= v.dispatched(from, from));
        while self.current_dispatch_index < max_index
            invariant
                0 <= from <= self@.next <= max_index <= v.queue.len(),
                self@ == v.dispatched(from, self@.next),
            decreases max_index - self@.next,
        {
            let ghost before = self@;
            let ghost at = self@.next;
            assert(before.queue[at] == v.queue[at]);
            assert(before.queue.len() == self.dispatch_queue@.len());
            let packet = item_mut(&mut self.dispatch_queue, self.current_dispatch_index);
            let op_code = if packet.1.is_fragment {
                OpCode::ReliableDataFragment
            } else {
                OpCode::ReliableData
            };
            let resent = packet.1.sent;
            packet.1.sent = true;
            let payload = packet.1.data.clone();

            self.stats.total_sent = self.stats.total_sent.wrapping_add(1);
            if resent {
                self.stats.total_resent = self.stats.total_resent.wrapping_add(1);
            }
            let item = OutgoingReliable { op_code, payload };
            self.outgoing.push(item);
            self.current_dispatch_index = self.current_dispatch_index + 1;
            proof {
                let next = v.dispatched(from, at + 1);
                let part = v.queue.subrange(from, at + 1);
                assert(part.drop_last() =~= v.queue.subrange(from, at));
                assert(part.last() == v.queue[at]);
                assert(reliable_views(self.outgoing@) =~= before.outgoing.push(item@));
                assert(item@ == v.queue[at].packet());
                assert(self@.outgoing =~= next.outgoing);
                assert forall|k: int| 0 <= k < v.queue.len() implies self@.queue[k]
                    == next.queue[k] by {
                    assert(before.queue[k] == v.dispatched(from, at).queue[k]);
                    if k != at {
                        assert(self@.queue[k] == before.queue[k]);
                    }
                }
                assert(self@.queue =~= next.queue);
                assert(self@.stats == next.stats);
            }
        }
    }

    /// Notifies the channel that the remote has acknowledged a single sequence.
    pub fn notify_of_acknowledge(&mut self, sequence: u16, now: Instant)
        requires
            old(self)@.wf(),
            old(self)@.max_client <= 2 * MAX_SEQUENCE,
        ensures
            final(self)@ == old(self)@.acknowledged(sequence, now),
            final(self)@.wf(),
    {
        let ghost v = self@;
        proof {
            acknowledge_keeps(v, sequence, now);
        }
        let seq: i64 = self.true_incoming(sequence);
        self.stats.incoming_acknowledge_count = self.stats.incoming_acknowledge_count.wrapping_add(
            1,
        );
        let mut pos: usize = 0;
        while pos < self.dispatch_queue.len() && self.dispatch_queue[pos].0 != seq
            invariant
                pos <= self@.queue.len(),
                forall|k: int| 0 <= k < pos ==> (#[trigger] self@.queue[k]).sequence != seq,
            decreases self@.queue.len() - pos,
        {
            assert(self@.queue[pos as int].sequence != seq);
            pos = pos + 1;
        }
        if pos < self.dispatch_queue.len() {
            assert(self@.queue[pos as int].sequence == seq);
            assert(place_of(v.queue, seq as int) == Some(pos as int));
            self.dispatch_queue.remove(pos);
            assert(self@.queue =~= v.queue.remove(pos as int));
            if self.current_dispatch_index > 0 {
                self.current_dispatch_index = self.current_dispatch_index - 1;
            }
            self.stats.actual_acknowledge_count = self.stats.actual_acknowledge_count.wrapping_add(
                1,
            );
        }
        if seq > self.max_client_sequence {
            self.max_client_sequence = seq;
        }
        self.last_ack_at = now;
    }

    /// Notifies the channel that the remote has acknowledged all sequences up to and
    /// including the given one.
    pub fn notify_of_acknowledge_all(&mut self, sequence: u16, now: Instant)
        requires
            old(self)@.wf(),
            old(self)@.max_client <= 2 * MAX_SEQUENCE,
        ensures
            final(self)@ == old(self)@.acknowledged_all(sequence, now),
            final(self)@.wf(),
    {
        let ghost v = self@;
        proof {
            acknowledge_keeps(v, sequence, now);
            reached_exactly(v.queue, v.acknowledged_sequence(sequence));
        }
        let seq: i64 = self.true_incoming(sequence);
        self.stats.incoming_acknowledge_count = self.stats.incoming_acknowledge_count.wrapping_add(
            1,
        );
        let ghost mut n: nat = 0;
        assert(v.queue.skip(0) =~= v.queue);
        while self.dispatch_queue.len() > 0 && self.dispatch_queue[0].0 <= seq
            invariant
                n <= v.queue.len(),
                self@.queue == v.queue.skip(n as int),
                n + reached(self@.queue, seq as int) == reached(v.queue, seq as int),
                self@ == (OutputView {
                    queue: self@.queue,
                    next: if v.next < n {
                        0
                    } else {
                        v.next - n
                    },
                    stats: DataOutputStats {
                        incoming_acknowledge_count: counted(v.stats.incoming_acknowledge_count, 1),
                        actual_acknowledge_count: counted(v.stats.actual_acknowledge_count, n),
                        ..v.stats
                    },
                    ..v
                }),
            decreases self@.queue.len(),
        {
            let ghost before = self@.queue;
            assert(before[0].sequence <= seq);
            self.dispatch_queue.pop_front();
            assert(self@.queue =~= before.skip(1));
            if self.current_dispatch_index > 0 {
                self.current_dispatch_index = self.current_dispatch_index - 1;
            }
            self.stats.actual_acknowledge_count = self.stats.actual_acknowledge_count.wrapping_add(
                1,
            );
            proof {
                n = n + 1;
            }
            assert(self@.queue =~= v.queue.skip(n as int));
        }
        assert(self@.queue.len() > 0 ==> self@.queue[0].sequence > seq);
        if seq > self.max_client_sequence {
            self.max_client_sequence = seq;
        }
        self.last_ack_at = now;
    }

    fn stash_fragment(&mut self, data: &mut Bytes, is_master: bool, is_fragment: bool)
        requires
            0 <= old(self)@.total < i64::MAX,
            old(self)@.config.max_data_length >= SEQUENCE_SIZE,
            is_fragment ==> old(self)@.config.max_data_length >= SEQUENCE_SIZE
                + FRAGMENT_LENGTH_SIZE,
            is_master ==> is_fragment == (content(*old(data)).len() + SEQUENCE_SIZE > old(self)@.config.max_data_length),
            fits(content(*old(data)).len() + 6),
        ensures
            ({
                let v = old(self)@;
                let whole = content(*old(data));
                let chunk = v.config.max_data_length - SEQUENCE_SIZE;
                let room = if whole.len() < chunk {
                    whole.len() as int
                } else {
                    chunk
                };
                let n = if is_master && is_fragment {
                    room - FRAGMENT_LENGTH_SIZE
                } else {
                    room
                };
                let length = if is_master && is_fragment {
                    be32((whole.len() % 0x1_0000_0000) as u32)
                } else {
                    Seq::<u8>::empty()
                };
                &&& content(*final(data)) == whole.skip(n)
                &&& final(self)@ == (OutputView {
                    queue: v.queue.push(
                        QueuedView {
                            sequence: v.total,
                            is_fragment,
                            payload: be16(packet_sequence_of(v.total)) + length + whole.take(n),
                            sent: false,
                        },
                    ),
                    total: v.total + 1,
                    ..v
                })
            }),
    {
        let ghost v = self@;
        let ghost whole = content(*data);
        let len: usize = buffer::as_slice(data).len();
        let mut amount: usize = if len < self.max_chunk() {
            len
        } else {
            self.max_chunk()
        };
        let mut buf = buffer::with_capacity(SEQUENCE_SIZE + FRAGMENT_LENGTH_SIZE + amount);
        buffer::put_u16(&mut buf, (self.total_sequence % 0x1_0000) as u16);
        if is_master && is_fragment {
            buffer::put_u32(&mut buf, ((len as u64) % 0x1_0000_0000) as u32);
            amount = amount - FRAGMENT_LENGTH_SIZE;
        }
        buffer::extend_from_slice(
            &mut buf,
            vstd::slice::slice_subrange(buffer::as_slice(data), 0, amount),
        );
        let ghost payload = content_mut(buf);
        let ghost length = if is_master && is_fragment {
            be32((whole.len() % 0x1_0000_0000) as u32)
        } else {
            Seq::<u8>::empty()
        };
        assert(payload =~= be16(packet_sequence_of(v.total)) + length + whole.take(
            amount as int,
        ));
        let packet = StashedOutputPacket { is_fragment, data: buffer::freeze(buf), sent: false };
        self.dispatch_queue.push_back((self.total_sequence, packet));
        assert(self@.queue =~= v.queue.push(
            QueuedView { sequence: v.total, is_fragment, payload, sent: false },
        ));
        self.total_sequence = self.total_sequence + 1;
        let rest = buffer::slice(data, amount, len);
        assert(content(rest) =~= whole.skip(amount as int));
        *data = rest;
    }

    fn true_incoming(&self, packet_sequence: u16) -> (seq: i64)
        requires
            0 <= self@.max_client <= 2 * MAX_SEQUENCE,
        ensures
            seq == self@.acknowledged_sequence(packet_sequence),
    {
        // A window beyond the limit reconstructs sequences as the limit does.
        let limit: usize = 0x2_0000;
        let max_queued: i64 = if self.config.max_queued_outgoing < limit {
            self.config.max_queued_outgoing as i64
        } else {
            limit as i64
        };
        true_incoming_sequence(packet_sequence, self.max_client_sequence, max_queued)
    }
}

/// Encrypts `data` with an RC4 cipher. A leading zero byte is prepended when the
/// ciphertext itself begins with a zero, mirroring the input channel's padding-strip
/// logic.
fn encrypt(cipher: &mut Rc4KeyState, data: &[u8]) -> (r: Bytes)
    requires
        data@.len() > 0,
        fits(data@.len() + 1),
    ensures
        content(r) == sealed(Some(old(cipher)@), data@),
        final(cipher)@ == old(cipher)@.after(data@.len()),
{
    let ghost key = cipher@;
    let mut buf = buffer::with_capacity(data.len() + 1);
    buffer::put_u8(&mut buf, 0);
    buffer::extend_from_slice(&mut buf, data);
    assert(content_mut(buf).skip(1) =~= data@);
    cipher.transform_in_place(buffer::as_mut_slice(&mut buf, 1));
    assert(content_mut(buf) =~= seq![0u8] + key.applied(data@));
    let frozen = buffer::freeze(buf);
    let bytes = buffer::as_slice(&frozen);
    if bytes[1] == 0 {
        frozen
    } else {
        let r = buffer::slice(&frozen, 1, bytes.len());
        assert(content(r) =~= key.applied(data@));
        r
    }
}

} // verus!
