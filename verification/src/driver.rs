//! What a driver does when it wakes up.
//!
//! A driver waits for a datagram, for the next tick or for a command, and performs the
//! I/O. What each of these does to the sessions, and what the driver does next, is
//! decided here.
use bytes::Bytes;
use vstd::prelude::*;

use crate::buffer::{self, content};
use crate::protocol::DisconnectReason;
use crate::socket::model::MuxView;
use crate::socket::{lawful, RemoteAddr, SoeMultiplexer};
use crate::time::Instant;

verus! {

/// What the application asks of the sessions.
#[derive(Debug)]
pub enum Command<A> {
    /// Open a client session.
    Connect(A),
    /// Send application data.
    EnqueueData {
        /// Whom to send it to.
        remote: A,
        /// The data.
        data: Bytes,
    },
    /// End a session.
    Terminate {
        /// Whom the session is with.
        remote: A,
        /// Why it is to end.
        reason: DisconnectReason,
    },
}

/// Why a driver woke up.
#[derive(Debug)]
pub enum Wake<A> {
    /// A datagram came in.
    Received {
        /// Where it came from.
        from: A,
        /// The datagram.
        datagram: Bytes,
    },
    /// Receiving failed.
    ReceiveFailed,
    /// It is time for a tick.
    Tick,
    /// The application wants something.
    Commanded(Command<A>),
    /// Nobody is left to command.
    Abandoned,
    /// Nobody is left to hand events to.
    Unheard,
}

/// What a driver does next.
#[derive(Debug, Clone, Copy, PartialEq, Eq, Structural)]
pub enum Next {
    /// Send what is to be sent, hand out events, and wait again.
    Flush,
    /// Wait again.
    Wait,
    /// Stop.
    Stop,
}

/// What a driver does next once it woke up.
pub open spec fn next_step<A>(wake: Wake<A>) -> Next {
    match wake {
        Wake::ReceiveFailed => Next::Wait,
        Wake::Abandoned | Wake::Unheard => Next::Stop,
        _ => Next::Flush,
    }
}

/// The sessions once a driver woke up.
pub open spec fn woken<A: RemoteAddr>(v: MuxView<A>, wake: Wake<A>, now: Instant) -> MuxView<A> {
    match wake {
        Wake::Received { from, datagram } => v.processed(from, content(datagram), now),
        Wake::Tick => v.ticked(now),
        Wake::Commanded(Command::Connect(remote)) => v.connected(remote, now),
        Wake::Commanded(Command::EnqueueData { remote, data }) => v.enqueued(
            remote,
            content(data),
        ),
        Wake::Commanded(Command::Terminate { remote, reason }) => v.terminated(
            remote,
            reason,
            now,
        ),
        Wake::ReceiveFailed | Wake::Abandoned | Wake::Unheard => v,
    }
}

/// Whether the sessions can take in what woke a driver up.
pub open spec fn can_take<A: RemoteAddr>(v: MuxView<A>, wake: Wake<A>) -> bool {
    match wake {
        Wake::Received { from, datagram } => v.ready_for(from, content(datagram)),
        Wake::Commanded(Command::EnqueueData { remote, data }) => v.can_enqueue(
            remote,
            content(data),
        ),
        _ => true,
    }
}

/// Does to the sessions what a driver woke up for, and says what the driver does next.
///
/// A receive error shouldn't end the sessions: the driver goes on. Data for a remote
/// without a running session is dropped.
pub fn wake_up<A: RemoteAddr>(mux: &mut SoeMultiplexer<A>, wake: Wake<A>, now: Instant) -> (next:
    Next)
    requires
        lawful::<A>(),
        old(mux)@.wf(),
        can_take(old(mux)@, wake),
    ensures
        final(mux)@ == woken(old(mux)@, wake, now),
        final(mux)@.wf(),
        next == next_step(wake),
{
    match wake {
        Wake::Received { from, datagram } => {
            mux.process_incoming(from, datagram, now);
        },
        Wake::ReceiveFailed => {
            return Next::Wait;
        },
        Wake::Tick => {
            mux.run_tick(now);
        },
        Wake::Commanded(Command::Connect(remote)) => {
            mux.connect(remote, now);
        },
        Wake::Commanded(Command::EnqueueData { remote, data }) => {
            let _ = mux.enqueue_data(&remote, buffer::as_slice(&data));
        },
        Wake::Commanded(Command::Terminate { remote, reason }) => {
            mux.terminate(&remote, reason, now);
        },
        Wake::Abandoned | Wake::Unheard => {
            return Next::Stop;
        },
    }
    Next::Flush
}

/// A driver hands each datagram, tick and command to the sessions as what it is, and sends
/// and hands out what comes of it. It goes on after a receive error, and stops once nobody is
/// left to command it or to hear of it, with the sessions as they were.
pub proof fn driver_acts_on_what_woke_it<A: RemoteAddr>(
    v: MuxView<A>,
    remote: A,
    bytes: Bytes,
    reason: DisconnectReason,
    now: Instant,
)
    ensures
        ({
            let received = Wake::Received { from: remote, datagram: bytes };
            let connect = Wake::Commanded(Command::Connect(remote));
            let enqueue = Wake::Commanded(Command::EnqueueData { remote, data: bytes });
            let terminate = Wake::Commanded(Command::Terminate { remote, reason });
            &&& woken(v, received, now) == v.processed(remote, content(bytes), now)
            &&& next_step(received) == Next::Flush
            &&& woken(v, Wake::Tick, now) == v.ticked(now)
            &&& next_step(Wake::<A>::Tick) == Next::Flush
            &&& woken(v, connect, now) == v.connected(remote, now)
            &&& next_step(connect) == Next::Flush
            &&& woken(v, enqueue, now) == v.enqueued(remote, content(bytes))
            &&& next_step(enqueue) == Next::Flush
            &&& woken(v, terminate, now) == v.terminated(remote, reason, now)
            &&& next_step(terminate) == Next::Flush
            &&& woken(v, Wake::ReceiveFailed, now) == v
            &&& next_step(Wake::<A>::ReceiveFailed) == Next::Wait
            &&& woken(v, Wake::Abandoned, now) == v
            &&& next_step(Wake::<A>::Abandoned) == Next::Stop
            &&& woken(v, Wake::Unheard, now) == v
            &&& next_step(Wake::<A>::Unheard) == Next::Stop
        }),
{
}

} // verus!
