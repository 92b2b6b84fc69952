//! Receiving reliable data: what arrives is validated, put back in order, put back
//! together, deciphered and unbundled, and acknowledged.
//!
//! The channel does no I/O. Packets are handed to it, and it gathers the
//! acknowledgements to send and the application data that came out.
use bytes::{Bytes, BytesMut};
use vstd::prelude::*;

use crate::buffer::{self, content, content_mut, contents, fits, max_buffer_length};
use crate::channel::{counted, packet_sequence_of, true_incoming_sequence, true_sequence};
use crate::constants::{MAX_SEQUENCE, MULTI_DATA_INDICATOR};
use crate::error::{Error, Result};
use crate::protocol::OpCode;
use crate::rc4::{KeyView, Rc4KeyState};
use crate::time::{elapsed, Duration, Instant};
use crate::varint::data_bundle;
use crate::wire::{from_be16, from_be32, read_u16, read_u32};

verus! {

/// Statistics gathered while receiving reliable data. A counter that overflows starts
/// again at zero.
#[derive(Debug, Clone, Copy)]
pub struct DataInputStats {
    /// Total reliable data packets received, including duplicates.
    pub total_received: u64,
    /// Number of duplicate reliable data packets received.
    pub duplicate_count: u64,
    /// Number of reliable data packets received out of order.
    pub out_of_order_count: u64,
    /// Total application bytes received (excluding indicators/padding).
    pub total_received_bytes: u64,
    /// Number of acknowledgement packets emitted.
    pub acknowledge_count: u64,
}

/// Statistics of a channel that has received nothing.
pub open spec fn no_input_stats() -> DataInputStats {
    DataInputStats {
        total_received: 0,
        duplicate_count: 0,
        out_of_order_count: 0,
        total_received_bytes: 0,
        acknowledge_count: 0,
    }
}

impl Default for DataInputStats {
    fn default() -> (r: Self)
        ensures
            r == no_input_stats(),
    {
        DataInputStats {
            total_received: 0,
            duplicate_count: 0,
            out_of_order_count: 0,
            total_received_bytes: 0,
            acknowledge_count: 0,
        }
    }
}

/// Configuration controlling the input channel's behaviour.
#[derive(Debug, Clone, Copy)]
pub struct InputConfig {
    /// Maximum number of incoming reliable data packets that may be stashed.
    pub max_queued_incoming: u16,
    /// Whether every data packet is acknowledged individually.
    pub acknowledge_all_data: bool,
    /// The acknowledgement window used to decide when to send an `AcknowledgeAll`.
    pub data_ack_window: u16,
    /// Maximum delay before acknowledging incoming reliable data sequences.
    pub max_ack_delay: Duration,
}

impl Default for InputConfig {
    fn default() -> (r: Self)
        ensures
            r.max_queued_incoming == 256,
            !r.acknowledge_all_data,
            r.data_ack_window == 32,
            r.max_ack_delay.nanos == 2_000_000,
    {
        InputConfig {
            max_queued_incoming: 256,
            acknowledge_all_data: false,
            data_ack_window: 32,
            max_ack_delay: Duration::from_millis(2),
        }
    }
}

/// A contextual packet the channel wishes to send (without OP code or CRC framing,
/// which the session layer applies). For this channel it is always an acknowledgement
/// carrying a single sequence number.
#[derive(Debug, Clone, Copy, PartialEq, Eq, Structural)]
pub struct OutgoingContextual {
    /// The OP code of the packet ([`OpCode::Acknowledge`] or [`OpCode::AcknowledgeAll`]).
    pub op_code: OpCode,
    /// The acknowledged sequence number.
    pub sequence: u16,
}

/// A reliable data packet without its sequence.
pub struct ArrivalView {
    /// What follows the sequence.
    pub data: Seq<u8>,
    /// Whether the packet is a fragment of a data unit.
    pub is_fragment: bool,
}

/// What an input channel holds.
#[verifier::ext_equal]
pub struct InputView {
    /// How the channel is configured.
    pub config: InputConfig,
    /// The cipher state, where application data is enciphered.
    pub cipher: Option<KeyView>,
    /// The sequence that the channel waits for.
    pub window_start: int,
    /// What has arrived of a data unit whose fragments are still coming in.
    pub pending: Option<Seq<u8>>,
    /// The length of that data unit.
    pub expected: int,
    /// The sequence up to which everything was acknowledged last.
    pub last_ack_all: int,
    /// When that was.
    pub last_ack_all_time: Instant,
    /// Packets that arrived too early, each in the slot of its sequence.
    pub stash: Seq<Option<ArrivalView>>,
    /// The statistics.
    pub stats: DataInputStats,
    /// Acknowledgements not yet taken.
    pub outgoing: Seq<OutgoingContextual>,
    /// Application data not yet taken.
    pub app_data: Seq<Seq<u8>>,
}

/// The number of packets in a stash.
pub open spec fn occupied(stash: Seq<Option<ArrivalView>>) -> nat
    decreases stash.len(),
{
    if stash.len() == 0 {
        0
    } else {
        occupied(stash.drop_last()) + (if stash.last() is Some {
            1nat
        } else {
            0
        })
    }
}

/// Taking a packet out of a stash leaves one packet less in it.
pub proof fn occupied_taken(stash: Seq<Option<ArrivalView>>, at: int)
    requires
        0 <= at < stash.len(),
        stash[at] is Some,
    ensures
        occupied(stash.update(at, None)) + 1 == occupied(stash),
    decreases stash.len(),
{
    let after = stash.update(at, None);
    if at == stash.len() - 1 {
        assert(after.drop_last() =~= stash.drop_last());
    } else {
        assert(after.drop_last() =~= stash.drop_last().update(at, None));
        occupied_taken(stash.drop_last(), at);
    }
}

/// A stash holds no more packets than it has slots.
pub proof fn occupied_bounded(stash: Seq<Option<ArrivalView>>)
    ensures
        occupied(stash) <= stash.len(),
    decreases stash.len(),
{
    if stash.len() > 0 {
        occupied_bounded(stash.drop_last());
    }
}

/// The data units in what follows the indicator of a bundle: each stands behind its
/// length. What cannot be read is left out, with all that follows it.
pub open spec fn unbundled(s: Seq<u8>) -> Seq<Seq<u8>>
    decreases s.len(),
{
    match data_bundle::length_at_start(s) {
        Some((n, used)) => if used + n <= s.len() {
            seq![s.subrange(used as int, used + n)] + unbundled(s.skip(used + n))
        } else {
            Seq::empty()
        },
        None => Seq::empty(),
    }
}

/// The data units that reliable data carries: itself, unless it is a bundle.
pub open spec fn data_units(data: Seq<u8>) -> Seq<Seq<u8>> {
    if data.len() > 2 && data[0] == MULTI_DATA_INDICATOR[0] && data[1] == MULTI_DATA_INDICATOR[1] {
        unbundled(data.skip(2))
    } else {
        seq![data]
    }
}

/// A data unit without the zero byte that may pad it when it is enciphered.
pub open spec fn unpadded(unit: Seq<u8>) -> Seq<u8> {
    if unit.len() > 1 && unit[0] == 0 {
        unit.skip(1)
    } else {
        unit
    }
}

impl InputView {
    /// What holds of a channel at all times.
    pub open spec fn wf(self) -> bool {
        &&& self.stash.len() == self.config.max_queued_incoming
        &&& 0 <= self.window_start
        &&& -1 <= self.last_ack_all < self.window_start
        &&& 0 <= self.expected <= u32::MAX
    }

    /// A channel that nothing has arrived at.
    pub open spec fn initial(config: InputConfig, cipher: Option<KeyView>, now: Instant) -> Self {
        InputView {
            config,
            cipher,
            window_start: 0,
            pending: None,
            expected: 0,
            last_ack_all: -1,
            last_ack_all_time: now,
            stash: Seq::new(config.max_queued_incoming as nat, |k: int| None),
            stats: no_input_stats(),
            outgoing: Seq::empty(),
            app_data: Seq::empty(),
        }
    }

    /// The channel with one more acknowledgement to send.
    pub open spec fn emit(self, op_code: OpCode, sequence: u16) -> Self {
        InputView {
            outgoing: self.outgoing.push(OutgoingContextual { op_code, sequence }),
            stats: DataInputStats {
                acknowledge_count: self.stats.acknowledge_count.wrapping_add(1),
                ..self.stats
            },
            ..self
        }
    }

    /// The channel once it acknowledges everything before the sequence it waits for.
    pub open spec fn acknowledge_all(self, now: Instant) -> Self {
        InputView {
            last_ack_all: self.window_start - 1,
            last_ack_all_time: now,
            ..self.emit(OpCode::AcknowledgeAll, packet_sequence_of(self.window_start - 1))
        }
    }

    /// Whether an `AcknowledgeAll` is due.
    pub open spec fn ack_all_due(self, now: Instant) -> bool {
        let to_ack = self.window_start - 1;
        &&& !self.config.acknowledge_all_data
        &&& to_ack > self.last_ack_all
        &&& (elapsed(now, self.last_ack_all_time).nanos > self.config.max_ack_delay.nanos || to_ack
            >= self.last_ack_all + self.config.data_ack_window / 2)
    }

    /// The channel after its periodic work.
    pub open spec fn ticked(self, now: Instant) -> Self {
        if self.ack_all_due(now) {
            self.acknowledge_all(now)
        } else {
            self
        }
    }

    /// The channel once it has handed out one data unit.
    pub open spec fn with_unit(self, unit: Seq<u8>) -> Self {
        let plain = match self.cipher {
            Some(key) => key.applied(unpadded(unit)),
            None => unit,
        };
        InputView {
            cipher: match self.cipher {
                Some(key) => Some(key.after(unpadded(unit).len())),
                None => None,
            },
            stats: DataInputStats {
                total_received_bytes: counted(self.stats.total_received_bytes, plain.len()),
                ..self.stats
            },
            app_data: self.app_data.push(plain),
            ..self
        }
    }

    /// The channel once it has handed out some data units, in order.
    pub open spec fn with_units(self, units: Seq<Seq<u8>>) -> Self
        decreases units.len(),
    {
        if units.len() == 0 {
            self
        } else {
            self.with_unit(units[0]).with_units(units.skip(1))
        }
    }

    /// The channel once it has handed out what `data` carries.
    #[verifier::opaque]
    pub open spec fn with_data(self, data: Seq<u8>) -> Self {
        self.with_units(data_units(data))
    }

    /// The channel once it has put a fragment to what is pending. The first fragment of
    /// a data unit starts with the length of that unit.
    pub open spec fn with_fragment(self, data: Seq<u8>) -> Result<Self> {
        match self.pending {
            Some(pending) => if fits(pending.len() + data.len()) {
                Ok(InputView { pending: Some(pending + data), ..self })
            } else {
                Err(Error::DataTooLong)
            },
            None => if data.len() < 4 {
                Err(Error::UnexpectedEnd)
            } else if fits((data.len() - 4) as nat) {
                Ok(
                    InputView {
                        pending: Some(data.skip(4)),
                        expected: from_be32(data) as int,
                        ..self
                    },
                )
            } else {
                Err(Error::DataTooLong)
            },
        }
    }

    /// The channel once it has handed out the pending data unit, if all of it is there.
    pub open spec fn completed(self) -> Self {
        match self.pending {
            Some(pending) => if pending.len() >= self.expected {
                InputView { expected: 0, pending: None, ..self.with_data(pending) }
            } else {
                self
            },
            None => self,
        }
    }

    /// The channel once it has processed the packet that it waited for. Where that
    /// fails nothing changes.
    pub open spec fn accept(self, arrival: ArrivalView) -> (Self, Result<()>) {
        if arrival.is_fragment {
            match self.with_fragment(arrival.data) {
                Ok(next) => (
                    InputView { window_start: self.window_start + 1, ..next.completed() },
                    Ok(()),
                ),
                Err(e) => (self, Err(e)),
            }
        } else {
            (
                InputView {
                    window_start: self.window_start + 1,
                    ..self.with_data(arrival.data)
                },
                Ok(()),
            )
        }
    }

    /// The slot of a sequence in the stash.
    pub open spec fn slot(self, sequence: int) -> int {
        sequence % (self.config.max_queued_incoming as int)
    }

    /// The channel without the packet in a slot of its stash.
    pub open spec fn without(self, slot: int) -> Self {
        InputView { stash: self.stash.update(slot, None), ..self }
    }

    /// The channel once it has processed the packets that have their turn, from the
    /// stash. It stops at the first that fails. A stash without slots has none.
    pub open spec fn consume(self) -> (Self, Result<()>)
        decreases occupied(self.stash),
        when self.config.max_queued_incoming == self.stash.len()
        via Self::consume_decreases
    {
        let slot = self.slot(self.window_start);
        if self.config.max_queued_incoming == 0 {
            (self, Ok(()))
        } else {
            match self.stash[slot] {
                None => (self, Ok(())),
                Some(arrival) => match self.without(slot).accept(arrival) {
                    (next, Ok(_)) => next.consume(),
                    (next, Err(e)) => (next, Err(e)),
                },
            }
        }
    }

    #[via_fn]
    proof fn consume_decreases(self) {
        let slot = self.slot(self.window_start);
        if self.config.max_queued_incoming > 0 && self.stash[slot] is Some {
            occupied_taken(self.stash, slot);
            accept_keeps(self.without(slot), self.stash[slot]->0);
        }
    }

    /// The channel once it has stashed a packet that came early, or found its slot
    /// taken.
    pub open spec fn stashed(self, sequence: int, arrival: ArrivalView) -> Self {
        let counted = InputView {
            stats: DataInputStats {
                out_of_order_count: self.stats.out_of_order_count.wrapping_add(1),
                ..self.stats
            },
            ..self
        };
        let slot = self.slot(sequence);
        if self.stash[slot] is Some {
            counted.with_duplicate()
        } else {
            InputView { stash: self.stash.update(slot, Some(arrival)), ..counted }
        }
    }

    /// The channel with one more duplicate counted.
    pub open spec fn with_duplicate(self) -> Self {
        InputView {
            stats: DataInputStats {
                duplicate_count: self.stats.duplicate_count.wrapping_add(1),
                ..self.stats
            },
            ..self
        }
    }

    /// The channel once it has found that a packet was processed before. The remote is
    /// told once more how far things have got, but not too frequently: only once the
    /// acknowledgement delay has passed since it was told last.
    pub open spec fn repeated(self, now: Instant) -> Self {
        (if elapsed(now, self.last_ack_all_time).nanos > self.config.max_ack_delay.nanos {
            self.acknowledge_all(now)
        } else {
            self
        }).with_duplicate()
    }

    /// The channel with one more packet counted.
    pub open spec fn tallied(self) -> Self {
        InputView {
            stats: DataInputStats {
                total_received: self.stats.total_received.wrapping_add(1),
                ..self.stats
            },
            ..self
        }
    }

    /// The channel once it has noted a packet in its window, which is acknowledged at
    /// once where every packet is or where it came early.
    pub open spec fn noted(self, packet_sequence: u16, is_early: bool) -> Self {
        if self.config.acknowledge_all_data || is_early {
            self.tallied().emit(OpCode::Acknowledge, packet_sequence)
        } else {
            self.tallied()
        }
    }

    /// The channel once it has processed the packet that it waited for, and those in
    /// the stash that then have their turn.
    pub open spec fn accept_next(self, arrival: ArrivalView) -> (Self, Result<()>) {
        match self.accept(arrival) {
            (next, Ok(_)) => next.consume(),
            (next, Err(e)) => (next, Err(e)),
        }
    }

    /// The channel once it has handled a reliable data packet.
    #[verifier::opaque]
    pub open spec fn handle(self, data: Seq<u8>, is_fragment: bool, now: Instant) -> (
        Self,
        Result<()>,
    ) {
        let max_queued = self.config.max_queued_incoming as int;
        let packet_sequence = from_be16(data);
        let sequence = true_sequence(packet_sequence, self.window_start, max_queued);
        let arrival = ArrivalView { data: data.skip(2), is_fragment };
        if data.len() < 2 || sequence > self.window_start + max_queued {
            (self.tallied(), Ok(()))
        } else if sequence < self.window_start {
            (self.tallied().repeated(now), Ok(()))
        } else if sequence == self.window_start {
            self.noted(packet_sequence, false).accept_next(arrival)
        } else {
            (self.noted(packet_sequence, true).stashed(sequence, arrival), Ok(()))
        }
    }
}

/// Handing out data units changes the cipher state, the statistics and the application
/// data, and nothing else.
pub proof fn units_keep(v: InputView, units: Seq<Seq<u8>>)
    ensures
        ({
            let r = v.with_units(units);
            r == InputView { cipher: r.cipher, stats: r.stats, app_data: r.app_data, ..v }
        }),
    decreases units.len(),
{
    if units.len() > 0 {
        units_keep(v.with_unit(units[0]), units.skip(1));
    }
}

/// Handing out what data carries changes the cipher state, the statistics and the
/// application data, and nothing else.
pub proof fn data_keeps(v: InputView, data: Seq<u8>)
    ensures
        ({
            let r = v.with_data(data);
            r == InputView { cipher: r.cipher, stats: r.stats, app_data: r.app_data, ..v }
        }),
{
    reveal(InputView::with_data);
    units_keep(v, data_units(data));
}

/// Putting a fragment to what is pending, and handing out the data unit that it
/// completes, does not move the window.
proof fn fragment_keeps(v: InputView, data: Seq<u8>)
    ensures
        v.with_fragment(data) matches Ok(next) ==> next.completed().window_start
            == v.window_start,
{
    match v.with_fragment(data) {
        Ok(next) => {
            data_keeps(next, next.pending->0);
        },
        Err(_) => {},
    }
}

/// Processing a packet leaves the configuration, the stash and the acknowledgements
/// alone, and moves the window by one where it succeeds.
pub proof fn accept_keeps(v: InputView, arrival: ArrivalView)
    ensures
        ({
            let (r, result) = v.accept(arrival);
            &&& r.config == v.config
            &&& r.stash == v.stash
            &&& r.last_ack_all == v.last_ack_all
            &&& r.last_ack_all_time == v.last_ack_all_time
            &&& r.outgoing == v.outgoing
            &&& r.window_start == v.window_start + (if result is Ok {
                1int
            } else {
                0
            })
            &&& 0 <= v.expected <= u32::MAX ==> 0 <= r.expected <= u32::MAX
        }),
{
    data_keeps(v, arrival.data);
    match v.with_fragment(arrival.data) {
        Ok(next) => {
            data_keeps(next, next.pending->0);
        },
        Err(_) => {},
    }
}

/// Processing the packets in the stash that have their turn leaves the configuration
/// and the acknowledgements alone, keeps the channel well formed, and moves the window
/// by no more than the number of packets in the stash.
pub proof fn consume_keeps(v: InputView)
    requires
        v.wf(),
    ensures
        ({
            let r = v.consume().0;
            &&& r.wf()
            &&& r.config == v.config
            &&& r.outgoing == v.outgoing
            &&& v.window_start <= r.window_start
            &&& r.window_start + occupied(r.stash) <= v.window_start + occupied(v.stash)
        }),
    decreases occupied(v.stash),
{
    let slot = v.slot(v.window_start);
    if v.config.max_queued_incoming > 0 && v.stash[slot] is Some {
        let arrival = v.stash[slot]->0;
        occupied_taken(v.stash, slot);
        accept_keeps(v.without(slot), arrival);
        let (next, result) = v.without(slot).accept(arrival);
        if result is Ok {
            consume_keeps(next);
        }
    }
}

/// Handling a packet keeps the channel well formed, and moves the window by no more
/// than one packet and the stash.
pub proof fn handle_keeps(v: InputView, data: Seq<u8>, is_fragment: bool, now: Instant)
    requires
        v.wf(),
    ensures
        ({
            let r = v.handle(data, is_fragment, now).0;
            &&& r.wf()
            &&& r.config == v.config
            &&& v.window_start <= r.window_start <= v.window_start + 1
                + v.config.max_queued_incoming
        }),
{
    reveal(InputView::handle);
    let arrival = ArrivalView { data: data.skip(2), is_fragment };
    let noted = v.noted(from_be16(data), false);
    occupied_bounded(v.stash);
    accept_keeps(noted, arrival);
    if noted.accept(arrival).1 is Ok {
        consume_keeps(noted.accept(arrival).0);
    }
}

/// Handing out data units does not depend on what is pending.
proof fn pending_unread(v: InputView, units: Seq<Seq<u8>>)
    ensures
        (InputView { pending: None, ..v }).with_units(units) == (InputView {
            pending: None,
            ..v.with_units(units)
        }),
    decreases units.len(),
{
    if units.len() > 0 {
        pending_unread(v.with_unit(units[0]), units.skip(1));
    }
}

/// A reliable data packet without its sequence.
struct Stashed {
    data: Bytes,
    is_fragment: bool,
}

impl View for Stashed {
    type V = ArrivalView;

    closed spec fn view(&self) -> ArrivalView {
        ArrivalView { data: content(self.data), is_fragment: self.is_fragment }
    }
}

/// Handles reliable data packets, extracting the proxied application data in order.
pub struct ReliableDataInputChannel {
    config: InputConfig,
    cipher: Option<Rc4KeyState>,
    /// The next reliable data sequence we expect to receive.
    window_start_sequence: i64,
    /// Buffer accumulating fragments of the current data unit.
    current_buffer: Option<BytesMut>,
    /// The expected total length of the current data unit.
    expected_data_length: usize,
    /// The last sequence we acknowledged via `AcknowledgeAll`.
    last_ack_all_sequence: i64,
    last_ack_all_time: Instant,
    stash: Vec<Option<Stashed>>,
    stats: DataInputStats,
    outgoing: Vec<OutgoingContextual>,
    app_data: Vec<Bytes>,
}

/// What a stash holds.
closed spec fn stash_view(stash: Seq<Option<Stashed>>) -> Seq<Option<ArrivalView>> {
    Seq::new(
        stash.len(),
        |k: int|
            match stash[k] {
                Some(item) => Some(item@),
                None => None,
            },
    )
}

impl View for ReliableDataInputChannel {
    type V = InputView;

    closed spec fn view(&self) -> InputView {
        InputView {
            config: self.config,
            cipher: match self.cipher {
                Some(key) => Some(key@),
                None => None,
            },
            window_start: self.window_start_sequence as int,
            pending: match self.current_buffer {
                Some(b) => Some(content_mut(b)),
                None => None,
            },
            expected: self.expected_data_length as int,
            last_ack_all: self.last_ack_all_sequence as int,
            last_ack_all_time: self.last_ack_all_time,
            stash: stash_view(self.stash@),
            stats: self.stats,
            outgoing: self.outgoing@,
            app_data: contents(self.app_data@),
        }
    }
}

impl ReliableDataInputChannel {
    /// Creates a new input channel. `cipher` is the initial RC4 key state; pass
    /// `Some(..)` to enable RC4 decryption of the proxied application data, or
    /// `None` to pass it through unencrypted.
    pub fn new(config: InputConfig, cipher: Option<Rc4KeyState>, now: Instant) -> (r: Self)
        ensures
            r@ == InputView::initial(
                config,
                match cipher {
                    Some(key) => Some(key@),
                    None => None,
                },
                now,
            ),
            r@.wf(),
    {
        let capacity: usize = config.max_queued_incoming as usize;
        let mut stash: Vec<Option<Stashed>> = Vec::new();
        while stash.len() < capacity
            invariant
                stash@.len() <= capacity,
                forall|k: int| 0 <= k < stash@.len() ==> stash@[k] is None,
            decreases capacity - stash@.len(),
        {
            stash.push(None);
        }
        let app_data: Vec<Bytes> = Vec::new();
        assert(contents(app_data@) =~= Seq::<Seq<u8>>::empty());
        assert(stash_view(stash@) =~= Seq::new(
            config.max_queued_incoming as nat,
            |k: int| None::<ArrivalView>,
        ));
        ReliableDataInputChannel {
            config,
            cipher,
            window_start_sequence: 0,
            current_buffer: None,
            expected_data_length: 0,
            last_ack_all_sequence: -1,
            last_ack_all_time: now,
            stash,
            stats: DataInputStats::default(),
            outgoing: Vec::new(),
            app_data,
        }
    }

    /// Returns the gathered input statistics.
    pub fn stats(&self) -> (r: &DataInputStats)
        ensures
            *r == self@.stats,
    {
        &self.stats
    }

    /// The next reliable data sequence that the channel expects to receive.
    pub fn window_start(&self) -> (n: i64)
        ensures
            n == self@.window_start,
    {
        self.window_start_sequence
    }

    /// How the channel is configured.
    pub fn config(&self) -> (r: &InputConfig)
        ensures
            *r == self@.config,
    {
        &self.config
    }

    /// Drains the outgoing acknowledgement packets accumulated so far.
    pub fn take_outgoing(&mut self) -> (out: Vec<OutgoingContextual>)
        ensures
            out@ == old(self)@.outgoing,
            final(self)@ == (InputView { outgoing: Seq::empty(), ..old(self)@ }),
    {
        let mut out: Vec<OutgoingContextual> = Vec::new();
        core::mem::swap(&mut out, &mut self.outgoing);
        out
    }

    /// Drains the decoded application data buffers accumulated so far.
    pub fn take_app_data(&mut self) -> (out: Vec<Bytes>)
        ensures
            contents(out@) == old(self)@.app_data,
            final(self)@ == (InputView { app_data: Seq::empty(), ..old(self)@ }),
    {
        let mut out: Vec<Bytes> = Vec::new();
        core::mem::swap(&mut out, &mut self.app_data);
        assert(self@.app_data =~= Seq::<Seq<u8>>::empty());
        out
    }

    /// The decoded application data buffers accumulated so far.
    pub fn app_data(&self) -> (r: &Vec<Bytes>)
        ensures
            contents(r@) == self@.app_data,
    {
        &self.app_data
    }

    fn max_queued(&self) -> (n: i64)
        ensures
            n == self@.config.max_queued_incoming,
    {
        self.config.max_queued_incoming as i64
    }

    /// Runs periodic channel logic: emits a buffered `AcknowledgeAll` when due.
    pub fn run_tick(&mut self, now: Instant)
        requires
            old(self)@.wf(),
        ensures
            final(self)@ == old(self)@.ticked(now),
            final(self)@.wf(),
    {
        let to_ack: i64 = self.window_start_sequence - 1;

        // No need to ack-all if acking everything individually, or we've already
        // acked up to the current window start.
        if self.config.acknowledge_all_data || to_ack <= self.last_ack_all_sequence {
            return;
        }
        let waited = now.duration_since(self.last_ack_all_time);
        let need_ack = waited.exceeds(&self.config.max_ack_delay) || to_ack
            - self.last_ack_all_sequence >= (self.config.data_ack_window / 2) as i64;
        if need_ack {
            self.send_ack_all(now);
        }
    }

    /// Handles a [`OpCode::ReliableData`] packet (OP code already stripped).
    pub fn handle_reliable_data(&mut self, data: Bytes, now: Instant) -> (r: Result<()>)
        requires
            old(self)@.wf(),
            old(self)@.window_start <= 2 * MAX_SEQUENCE,
        ensures
            final(self)@ == old(self)@.handle(content(data), false, now).0,
            r == old(self)@.handle(content(data), false, now).1,
            final(self)@.wf(),
    {
        proof {
            handle_keeps(self@, content(data), false, now);
        }
        if !self.preprocess(&data, false, now) {
            return Ok(());
        }
        let ghost before = self@;
        let body = buffer::slice(&data, 2, buffer::as_slice(&data).len());
        proof {
            assert(content(body) =~= content(data).skip(2));
            accept_keeps(before, ArrivalView { data: content(body), is_fragment: false });
            data_keeps(before, content(body));
            occupied_bounded(before.stash);
        }
        self.process_data(body);
        self.window_start_sequence = self.window_start_sequence + 1;
        self.consume_stashed()
    }

    /// Handles a [`OpCode::ReliableDataFragment`] packet (OP code already stripped).
    pub fn handle_reliable_data_fragment(&mut self, data: Bytes, now: Instant) -> (r: Result<()>)
        requires
            old(self)@.wf(),
            old(self)@.window_start <= 2 * MAX_SEQUENCE,
        ensures
            final(self)@ == old(self)@.handle(content(data), true, now).0,
            r == old(self)@.handle(content(data), true, now).1,
            final(self)@.wf(),
    {
        proof {
            handle_keeps(self@, content(data), true, now);
        }
        if !self.preprocess(&data, true, now) {
            return Ok(());
        }
        let ghost before = self@;
        let body = buffer::slice(&data, 2, buffer::as_slice(&data).len());
        proof {
            assert(content(body) =~= content(data).skip(2));
            accept_keeps(before, ArrivalView { data: content(body), is_fragment: true });
            fragment_keeps(before, content(body));
            occupied_bounded(before.stash);
        }
        match self.write_immediate_fragment(buffer::as_slice(&body)) {
            Ok(_) => {},
            Err(e) => {
                return Err(e);
            },
        }
        self.try_process_current_buffer();
        self.window_start_sequence = self.window_start_sequence + 1;
        self.consume_stashed()
    }

    fn emit(&mut self, op_code: OpCode, sequence: u16)
        ensures
            final(self)@ == old(self)@.emit(op_code, sequence),
    {
        self.outgoing.push(OutgoingContextual { op_code, sequence });
        self.stats.acknowledge_count = self.stats.acknowledge_count.wrapping_add(1);
    }

    fn send_ack_all(&mut self, now: Instant)
        requires
            0 <= old(self)@.window_start,
        ensures
            final(self)@ == old(self)@.acknowledge_all(now),
    {
        let sequence: i64 = self.window_start_sequence - 1;
        let packet_sequence: u16 = if sequence < 0 {
            0xFFFF
        } else {
            (sequence % 0x1_0000) as u16
        };
        self.emit(OpCode::AcknowledgeAll, packet_sequence);
        self.last_ack_all_sequence = sequence;
        self.last_ack_all_time = now;
    }

    /// Validates and, if necessary, stashes incoming reliable data. Returns `true`
    /// if the data (with its sequence stripped) should be processed immediately.
    fn preprocess(&mut self, data: &Bytes, is_fragment: bool, now: Instant) -> (r: bool)
        requires
            old(self)@.wf(),
            old(self)@.window_start <= 2 * MAX_SEQUENCE,
        ensures
            final(self)@.wf(),
            final(self)@.config == old(self)@.config,
            final(self)@.window_start == old(self)@.window_start,
            ({
                let (next, result) = old(self)@.handle(content(*data), is_fragment, now);
                let arrival = ArrivalView { data: content(*data).skip(2), is_fragment };
                if r {
                    &&& content(*data).len() >= 2
                    &&& (next, result) == final(self)@.accept_next(arrival)
                } else {
                    next == final(self)@ && result == Ok::<(), Error>(())
                }
            }),
    {
        reveal(InputView::handle);
        self.stats.total_received = self.stats.total_received.wrapping_add(1);

        let (sequence, packet_sequence) = match self.is_valid_reliable_data(
            buffer::as_slice(data),
            now,
        ) {
            Some(v) => v,
            None => {
                return false;
            },
        };

        let ahead = sequence != self.window_start_sequence;

        // Ack now if in ack-all mode or this is ahead of our expectations.
        if self.config.acknowledge_all_data || ahead {
            self.emit(OpCode::Acknowledge, packet_sequence);
        }
        if !ahead {
            return true;
        }
        // Out of order: stash it.

        self.stats.out_of_order_count = self.stats.out_of_order_count.wrapping_add(1);
        let spot: usize = (sequence % self.max_queued()) as usize;
        assert(spot == old(self)@.slot(sequence as int));
        assert(stash_view(self.stash@)[spot as int] is Some == (self.stash@[spot as int] is Some));
        if self.stash[spot].is_some() {
            self.stats.duplicate_count = self.stats.duplicate_count.wrapping_add(1);
            return false;
        }
        let ghost before = self.stash@;
        let body = buffer::slice(data, 2, buffer::as_slice(data).len());
        assert(content(body) =~= content(*data).skip(2));
        let item = Stashed { data: body, is_fragment };
        let ghost arrival = item@;
        self.stash[spot] = Some(item);
        assert(stash_view(self.stash@) =~= stash_view(before).update(spot as int, Some(arrival)));
        false
    }

    /// Checks whether the given data is within the current window. Returns the true
    /// sequence and embedded packet sequence if it should be processed/stashed.
    fn is_valid_reliable_data(&mut self, data: &[u8], now: Instant) -> (r: Option<(i64, u16)>)
        requires
            old(self)@.wf(),
            old(self)@.window_start <= 2 * MAX_SEQUENCE,
        ensures
            ({
                let v = old(self)@;
                let max_queued = v.config.max_queued_incoming as int;
                let sequence = true_sequence(from_be16(data@), v.window_start, max_queued);
                if data@.len() < 2 || sequence > v.window_start + max_queued {
                    r is None && final(self)@ == v
                } else if sequence < v.window_start {
                    r is None && final(self)@ == v.repeated(now)
                } else {
                    r matches Some((s, p)) && s == sequence && p == from_be16(data@) && final(self)@ == v
                }
            }),
    {
        if data.len() < 2 {
            return None;
        }
        assert(data@.skip(0) =~= data@);
        let packet_sequence: u16 = read_u16(data, 0);
        let sequence: i64 = true_incoming_sequence(
            packet_sequence,
            self.window_start_sequence,
            self.max_queued(),
        );

        // Too far ahead of our window; drop it.
        if sequence > self.window_start_sequence + self.max_queued() {
            return None;
        }
        // Inside the window.

        if sequence >= self.window_start_sequence {
            return Some((sequence, packet_sequence));
        }
        // Already processed: nudge the remote, but not too frequently.

        let waited = now.duration_since(self.last_ack_all_time);
        if waited.exceeds(&self.config.max_ack_delay) {
            self.send_ack_all(now);
        }
        self.stats.duplicate_count = self.stats.duplicate_count.wrapping_add(1);
        None
    }

    /// Appends fragment data to the current buffer, allocating it (and reading the
    /// total length prefix) if this is the master fragment.
    fn write_immediate_fragment(&mut self, data: &[u8]) -> (r: Result<()>)
        ensures
            match old(self)@.with_fragment(data@) {
                Ok(v) => r is Ok && final(self)@ == v,
                Err(e) => r == Err::<(), Error>(e) && final(self)@ == old(self)@,
            },
    {
        let limit: usize = max_buffer_length();
        match &mut self.current_buffer {
            Some(buf) => {
                let held: usize = buffer::mut_len(buf);
                if held > limit || data.len() > limit - held {
                    return Err(Error::DataTooLong);
                }
                buffer::extend_from_slice(buf, data);
                Ok(())
            },
            None => {
                if data.len() < 4 {
                    return Err(Error::UnexpectedEnd);
                }
                if data.len() - 4 > limit {
                    return Err(Error::DataTooLong);
                }
                assert(data@.skip(0) =~= data@);
                let expected: usize = read_u32(data, 0) as usize;
                let mut buf = buffer::with_capacity(
                    if expected <= limit {
                        expected
                    } else {
                        limit
                    },
                );
                buffer::extend_from_slice(
                    &mut buf,
                    vstd::slice::slice_subrange(data, 4, data.len()),
                );
                assert(content_mut(buf) =~= data@.skip(4));
                self.expected_data_length = expected;
                self.current_buffer = Some(buf);
                Ok(())
            },
        }
    }

    fn try_process_current_buffer(&mut self)
        ensures
            final(self)@ == old(self)@.completed(),
    {
        let ready = match &self.current_buffer {
            Some(buf) => buffer::mut_len(buf) >= self.expected_data_length,
            None => false,
        };
        if !ready {
            return;
        }
        let ghost v = self@;
        if let Some(buf) = self.current_buffer.take() {
            let ghost pending = content_mut(buf);
            proof {
                reveal(InputView::with_data);
                units_keep(v, data_units(pending));
                pending_unread(v, data_units(pending));
            }
            self.process_data(buffer::freeze(buf));
            self.expected_data_length = 0;
        }
    }

    fn consume_stashed(&mut self) -> (r: Result<()>)
        requires
            old(self)@.wf(),
            old(self)@.window_start + occupied(old(self)@.stash) <= 3 * MAX_SEQUENCE,
        ensures
            final(self)@ == old(self)@.consume().0,
            r == old(self)@.consume().1,
    {
        if self.config.max_queued_incoming == 0 {
            return Ok(());
        }
        loop
            invariant
                self@.wf(),
                self@.config.max_queued_incoming > 0,
                self@.window_start + occupied(self@.stash) <= 3 * MAX_SEQUENCE,
                self@.consume() == old(self)@.consume(),
            decreases occupied(self@.stash),
        {
            let ghost v = self@;
            let spot: usize = (self.window_start_sequence % self.max_queued()) as usize;
            assert(spot == v.slot(v.window_start));
            let ghost before = self.stash@;
            let item = match self.stash[spot].take() {
                Some(item) => item,
                None => {
                    assert(self.stash@ =~= before);
                    return Ok(());
                },
            };
            proof {
                assert(stash_view(self.stash@) =~= v.stash.update(spot as int, None));
                assert(self@ == v.without(spot as int));
                occupied_taken(v.stash, spot as int);
                accept_keeps(v.without(spot as int), item@);
                data_keeps(v.without(spot as int), item@.data);
                fragment_keeps(v.without(spot as int), item@.data);
            }
            if item.is_fragment {
                match self.write_immediate_fragment(buffer::as_slice(&item.data)) {
                    Ok(_) => {},
                    Err(e) => {
                        return Err(e);
                    },
                }
                self.try_process_current_buffer();
            } else {
                self.process_data(item.data);
            }
            self.window_start_sequence = self.window_start_sequence + 1;
        }
    }

    fn process_data(&mut self, data: Bytes)
        ensures
            final(self)@ == old(self)@.with_data(content(data)),
    {
        reveal(InputView::with_data);
        let bytes = buffer::as_slice(&data);
        if bytes.len() > 2 && bytes[0] == MULTI_DATA_INDICATOR[0] && bytes[1]
            == MULTI_DATA_INDICATOR[1] {
            // Skip the multi-data indicator.
            let mut offset: usize = 2;
            while offset < bytes.len()
                invariant
                    bytes@ == content(data),
                    offset <= bytes@.len(),
                    self@.with_units(unbundled(bytes@.skip(offset as int))) == old(self)@.with_units(unbundled(bytes@.skip(2))),
                ensures
                    self@ == old(self)@.with_units(unbundled(bytes@.skip(2))),
                decreases bytes@.len() - offset,
            {
                let ghost rest = bytes@.skip(offset as int);
                let (len, start) = match data_bundle::read(bytes, offset) {
                    Ok((len, start)) => (len as usize, start),
                    Err(_) => {
                        break;
                    },
                };
                if len > bytes.len() - start {
                    break;
                }
                let chunk = buffer::slice(&data, start, start + len);
                proof {
                    let unit = content(chunk);
                    let units = unbundled(rest);
                    assert(unit =~= rest.subrange(start - offset, start - offset + len));
                    assert(rest.skip(start - offset + len) =~= bytes@.skip(start + len));
                    assert(units == seq![unit] + unbundled(bytes@.skip(start + len)));
                    assert(units.skip(1) =~= unbundled(bytes@.skip(start + len)));
                }
                self.decrypt_and_handle(chunk);
                offset = start + len;
            }
        } else {
            proof {
                let units = data_units(content(data));
                assert(units.skip(1) =~= Seq::<Seq<u8>>::empty());
                assert(units[0] == content(data));
                reveal_with_fuel(InputView::with_units, 2);
            }
            self.decrypt_and_handle(data);
        }
    }

    fn decrypt_and_handle(&mut self, data: Bytes)
        ensures
            final(self)@ == old(self)@.with_unit(content(data)),
    {
        let ghost v = self@;
        let ghost unit = content(data);
        let processed = match &mut self.cipher {
            Some(cipher) => {
                // A single leading 0x00 byte may pad encrypted data; ignore it.
                let bytes = buffer::as_slice(&data);
                let skipped: usize = if bytes.len() > 1 && bytes[0] == 0 {
                    1
                } else {
                    0
                };
                let body = vstd::slice::slice_subrange(bytes, skipped, bytes.len());
                assert(body@ =~= unpadded(unit));
                let mut buf = buffer::mut_from_slice(body);
                assert(content_mut(buf).skip(0) =~= content_mut(buf));
                cipher.transform_in_place(buffer::as_mut_slice(&mut buf, 0));
                let processed = buffer::freeze(buf);
                assert(content(processed) =~= v.cipher->0.applied(unpadded(unit)));
                processed
            },
            None => data,
        };
        let len: usize = buffer::as_slice(&processed).len();
        self.stats.total_received_bytes = self.stats.total_received_bytes.wrapping_add(len as u64);
        let ghost before = self.app_data@;
        self.app_data.push(processed);
        assert(contents(self.app_data@) =~= contents(before).push(content(processed)));
    }
}

} // verus!
