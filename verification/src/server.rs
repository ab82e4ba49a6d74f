//! The server side of the tunnel: the life of a control channel, the
//! arrival of users, and what becomes of a data socket after a session.

use bytes::BytesMut;
use crate::buffer::buf_contents;
use crate::protocol::CodecError;
use crate::protocol::RTCPMessage;
use crate::protocol::RTCPType;
use crate::protocol::message_with_uuid;
use crate::splice::Side;
use crate::stream::Drained;
use crate::stream::decode_all;
use crate::stream::message_views;
use crate::stream::read_frames;
use crate::tcp_pool::Checkout;
use crate::tcp_pool::POOL_CAPACITY;
use crate::tcp_pool::SocketPool;
use crate::tcp_pool::TcpStreamData;
use crate::tcp_pool::fresh_top;
use crate::tcp_pool::is_stale;
use vstd::prelude::*;

verus! {

/// The port on which clients open their control channel.
pub const CONTROL_PORT: u16 = 5541;

/// The port on which clients open data sockets.
pub const DATA_PORT: u16 = 5533;

/// How many requests for a data socket may wait to be sent to one client.
pub const MAILBOX_CAPACITY: usize = 1000;

/// Where a control channel stands.
#[derive(Debug, Clone, Copy, PartialEq, Eq, Structural)]
pub enum ChannelState {
    /// The client has not yet said which access port it wants.
    AwaitingInitialize,
    /// The access port is open.
    Running(u16),
    /// The channel is over.
    Terminating,
}

/// What happens on a control channel.
#[derive(Debug, Clone, Copy, PartialEq, Eq, Structural)]
pub enum ChannelEvent {
    /// A message of this kind was read.
    Frame(RTCPType),
    /// What was read is no message.
    Invalid,
    /// The channel ended, or reading failed.
    Closed,
}

/// What the server does about an event.
#[derive(Debug, Clone, Copy, PartialEq, Eq, Structural)]
pub enum ChannelAction {
    Nothing,
    /// Open the access port, accept data sockets, and start sending
    /// requests for data sockets to the client.
    Open(u16),
    /// Abort everything that was started for the channel.
    TearDown,
}

/// One step of a control channel. The first `Initialize` opens the access
/// port; later ones, heartbeats and the other kinds change nothing. The end
/// of the channel and anything that is no message end it for good.
pub open spec fn channel_step(state: ChannelState, event: ChannelEvent) -> (
    ChannelState,
    ChannelAction,
) {
    match state {
        ChannelState::Terminating => (ChannelState::Terminating, ChannelAction::Nothing),
        _ => match event {
            ChannelEvent::Closed => (ChannelState::Terminating, ChannelAction::TearDown),
            ChannelEvent::Invalid => (ChannelState::Terminating, ChannelAction::TearDown),
            ChannelEvent::Frame(kind) => match (state, kind) {
                (ChannelState::AwaitingInitialize, RTCPType::Initialize(port)) => (
                    ChannelState::Running(port),
                    ChannelAction::Open(port),
                ),
                _ => (state, ChannelAction::Nothing),
            },
        },
    }
}

/// The steps of a control channel over a run of events: where it stands
/// afterwards, and what the server does, event by event.
pub open spec fn channel_run(state: ChannelState, events: Seq<ChannelEvent>) -> (
    ChannelState,
    Seq<ChannelAction>,
)
    decreases events.len(),
{
    if events.len() == 0 {
        (state, Seq::empty())
    } else {
        let first = channel_step(state, events[0]);
        let rest = channel_run(first.0, events.drop_first());
        (rest.0, seq![first.1] + rest.1)
    }
}

/// The events that the bytes read from a control channel amount to: one for
/// each message, and one more where what follows is no message.
pub open spec fn events_of(read: Drained) -> Seq<ChannelEvent> {
    Seq::new(read.messages.len(), |i: int| ChannelEvent::Frame(read.messages[i].message_type))
        + if read.stop == CodecError::Invalid {
        seq![ChannelEvent::Invalid]
    } else {
        Seq::empty()
    }
}

/// A channel that is over stays over, and nothing more is done for it.
pub proof fn lemma_over_is_over(events: Seq<ChannelEvent>)
    ensures
        channel_run(ChannelState::Terminating, events).0 == ChannelState::Terminating,
        forall|i: int|
            0 <= i < channel_run(ChannelState::Terminating, events).1.len()
                ==> #[trigger] channel_run(ChannelState::Terminating, events).1[i]
                == ChannelAction::Nothing,
        channel_run(ChannelState::Terminating, events).1.len() == events.len(),
    decreases events.len(),
{
    if events.len() > 0 {
        lemma_over_is_over(events.drop_first());
    }
}

/// How often the access port is opened in a run of actions.
pub open spec fn times_opened(actions: Seq<ChannelAction>) -> nat
    decreases actions.len(),
{
    if actions.len() == 0 {
        0
    } else {
        times_opened(actions.drop_first()) + if actions[0] is Open {
            1nat
        } else {
            0nat
        }
    }
}

/// How often everything is torn down in a run of actions.
pub open spec fn times_torn_down(actions: Seq<ChannelAction>) -> nat
    decreases actions.len(),
{
    if actions.len() == 0 {
        0
    } else {
        times_torn_down(actions.drop_first()) + if actions[0] is TearDown {
            1nat
        } else {
            0nat
        }
    }
}

/// Whatever happens on a control channel, its access port is opened at most
/// once, and only if the channel was still waiting for its `Initialize`;
/// and everything is torn down exactly once if the channel is over at the
/// end, and not at all if it is not.
pub proof fn lemma_channel_life(state: ChannelState, events: Seq<ChannelEvent>)
    ensures
        ({
            let after = channel_run(state, events);
            &&& after.1.len() == events.len()
            &&& times_opened(after.1) <= 1
            &&& !(state is AwaitingInitialize) ==> times_opened(after.1) == 0
            &&& state is Terminating ==> times_torn_down(after.1) == 0
            &&& !(state is Terminating) ==> times_torn_down(after.1) == if after.0 is Terminating {
                1nat
            } else {
                0nat
            }
        }),
    decreases events.len(),
{
    let after = channel_run(state, events);
    if events.len() > 0 {
        let first = channel_step(state, events[0]);
        let rest = channel_run(first.0, events.drop_first());
        lemma_channel_life(first.0, events.drop_first());
        lemma_over_is_over(events.drop_first());
        assert(after.1.drop_first() =~= rest.1);
        assert(after.1[0] == first.1);
    }
}

/// Decides one step of a control channel.
pub fn on_event(state: ChannelState, event: ChannelEvent) -> (r: (ChannelState, ChannelAction))
    ensures
        r == channel_step(state, event),
{
    match state {
        ChannelState::Terminating => (ChannelState::Terminating, ChannelAction::Nothing),
        _ => match event {
            ChannelEvent::Closed => (ChannelState::Terminating, ChannelAction::TearDown),
            ChannelEvent::Invalid => (ChannelState::Terminating, ChannelAction::TearDown),
            ChannelEvent::Frame(kind) => match (state, kind) {
                (ChannelState::AwaitingInitialize, RTCPType::Initialize(port)) => (
                    ChannelState::Running(port),
                    ChannelAction::Open(port),
                ),
                _ => (state, ChannelAction::Nothing),
            },
        },
    }
}

/// What reading from a control channel led to.
#[derive(Debug)]
pub struct ChannelProgress {
    /// Where the channel stands now.
    pub state: ChannelState,
    /// What to do, in order: one action for each event.
    pub actions: Vec<ChannelAction>,
}

/// Takes the messages that have arrived in `buf` off the buffer and steps
/// the control channel through them.
pub fn on_control_bytes(state: ChannelState, buf: &mut BytesMut) -> (r: ChannelProgress)
    ensures
        buf_contents(*final(buf)) == decode_all(buf_contents(*old(buf))).rest,
        (r.state, r.actions@) == channel_run(
            state,
            events_of(decode_all(buf_contents(*old(buf)))),
        ),
{
    let ghost read = decode_all(buf_contents(*buf));
    let ghost events = events_of(read);
    let batch = read_frames(buf);
    let mut now = state;
    let mut actions: Vec<ChannelAction> = Vec::new();
    let n: usize = batch.messages.len();
    let mut i: usize = 0;
    proof {
        assert(events.skip(0) =~= events);
    }
    while i < n
        invariant
            n == batch.messages@.len(),
            n == read.messages.len(),
            i <= n,
            message_views(batch.messages@) == read.messages,
            events == events_of(read),
            ({
                let rest = channel_run(now, events.skip(i as int));
                channel_run(state, events) == (rest.0, actions@ + rest.1)
            }),
        decreases n - i,
    {
        let ghost tail = events.skip(i as int);
        let ghost had = actions@;
        let ghost was = now;
        let kind = batch.messages[i].message_type;
        proof {
            assert(message_views(batch.messages@)[i as int] == batch.messages@[i as int]@);
            assert(tail[0] == ChannelEvent::Frame(kind));
            assert(tail.drop_first() =~= events.skip(i + 1));
        }
        let (next, action) = on_event(now, ChannelEvent::Frame(kind));
        now = next;
        actions.push(action);
        proof {
            let rest = channel_run(now, events.skip(i + 1));
            assert(channel_run(was, tail) == (rest.0, seq![action] + rest.1));
            assert(actions@ + rest.1 =~= had + (seq![action] + rest.1));
        }
        i += 1;
    }
    let ghost tail = events.skip(n as int);
    match batch.stop {
        CodecError::Invalid => {
            let ghost had = actions@;
            let ghost was = now;
            proof {
                assert(tail =~= seq![ChannelEvent::Invalid]);
                assert(tail.drop_first() =~= Seq::<ChannelEvent>::empty());
            }
            let (next, action) = on_event(now, ChannelEvent::Invalid);
            now = next;
            actions.push(action);
            proof {
                let rest = channel_run(now, tail.drop_first());
                assert(channel_run(was, tail) == (rest.0, seq![action] + rest.1));
                assert(actions@ =~= had + (seq![action] + rest.1));
            }
        },
        CodecError::NeedMore => {
            proof {
                assert(tail =~= Seq::<ChannelEvent>::empty());
                assert(actions@ + Seq::<ChannelAction>::empty() =~= actions@);
            }
        },
    }
    ChannelProgress { state: now, actions }
}

/// What the server does when a user arrives.
#[derive(Debug)]
pub struct Arrival {
    /// Ask the client for one more data socket.
    pub notify: bool,
    /// The data socket for the user, if one lay ready, and the stale ones
    /// that have to be closed.
    pub checkout: Checkout,
}

/// A user arrives at time `now`. The client is asked for a data socket
/// exactly when none lies in the pool. Then a socket is taken for the user,
/// with the stale guard.
pub fn on_user_arrival(pool: &mut SocketPool, now: u64) -> (r: Arrival)
    requires
        old(pool).wf(),
    ensures
        final(pool).wf(),
        r.notify == (old(pool).idle().len() == 0),
        ({
            let kept = fresh_top(old(pool).idle(), now);
            if kept.len() > 0 {
                &&& r.checkout.socket == Some(kept.last())
                &&& final(pool).idle() == kept.drop_last()
                &&& final(pool).in_use() == old(pool).in_use() + 1
            } else {
                &&& r.checkout.socket is None
                &&& final(pool).idle() == Seq::<TcpStreamData>::empty()
                &&& final(pool).in_use() == old(pool).in_use()
            }
        }),
        r.checkout.socket matches Some(socket) ==> !is_stale(socket, now),
        r.checkout.evicted@.len() == old(pool).idle().len() - fresh_top(
            old(pool).idle(),
            now,
        ).len(),
        forall|i: int|
            0 <= i < r.checkout.evicted@.len() ==> #[trigger] r.checkout.evicted@[i] == old(
                pool,
            ).idle()[old(pool).idle().len() - 1 - i] && is_stale(r.checkout.evicted@[i], now),
{
    let notify = pool.status().available == 0;
    let checkout = pool.checkout(now);
    Arrival { notify, checkout }
}

/// Whether a request for a data socket still fits into the mailbox of a
/// client in which `queued` requests wait. One that does not fit is dropped.
pub fn mailbox_takes(queued: usize) -> (r: bool)
    ensures
        r == (queued < MAILBOX_CAPACITY),
{
    queued < MAILBOX_CAPACITY
}

/// The message that asks the client for one more data socket.
pub fn new_connection_request() -> (m: RTCPMessage)
    ensures
        exists|uuid: u128| m@ == message_with_uuid(RTCPType::NewConnection, uuid),
{
    RTCPMessage::new(RTCPType::NewConnection)
}

/// What became of a data socket that the server accepted.
#[derive(Debug, PartialEq, Eq, Structural)]
pub enum Admission {
    /// It lies in the pool.
    Pooled,
    /// The pool is full: close the socket at once.
    Rejected(TcpStreamData),
}

/// A client has opened a data socket: it goes into the pool, unless the
/// pool is at capacity.
pub fn accept_data_socket(pool: &mut SocketPool, socket: TcpStreamData) -> (r: Admission)
    requires
        old(pool).wf(),
    ensures
        final(pool).wf(),
        final(pool).in_use() == old(pool).in_use(),
        if old(pool).idle().len() + old(pool).in_use() < POOL_CAPACITY {
            r == Admission::Pooled && final(pool).idle() == old(pool).idle().push(socket)
        } else {
            r == Admission::Rejected(socket) && final(pool).idle() == old(pool).idle()
        },
{
    match pool.add(socket) {
        Ok(_) => Admission::Pooled,
        Err(back) => Admission::Rejected(back),
    }
}

/// What became of a data socket after its session.
#[derive(Debug, PartialEq, Eq, Structural)]
pub enum SessionEnd {
    /// It lies in the pool again, stamped with the time of its release.
    Returned,
    /// It left the pool for good: shut it down.
    Evicted(TcpStreamData),
}

/// A session is over at time `now`. Where the data socket ended first it
/// leaves the pool for good; otherwise it goes back into the pool, stamped.
pub fn end_session(pool: &mut SocketPool, socket: TcpStreamData, first_closed: Side, now: u64) -> (r:
    SessionEnd)
    requires
        old(pool).wf(),
    ensures
        final(pool).wf(),
        if first_closed == Side::Tunnel || old(pool).in_use() == 0 {
            &&& r == SessionEnd::Evicted(socket)
            &&& final(pool).idle() == old(pool).idle()
            &&& final(pool).in_use() == if old(pool).in_use() > 0 {
                old(pool).in_use() - 1
            } else {
                0
            }
        } else {
            &&& r == SessionEnd::Returned
            &&& final(pool).in_use() == old(pool).in_use() - 1
            &&& final(pool).idle() == old(pool).idle().push(
                TcpStreamData {
                    id: socket.id,
                    disconnect: socket.disconnect,
                    latest_time: Some(now),
                },
            )
        },
{
    match first_closed {
        Side::Tunnel => SessionEnd::Evicted(pool.take(socket)),
        Side::Near => match pool.give_back(socket, now) {
            Ok(_) => SessionEnd::Returned,
            Err(back) => SessionEnd::Evicted(back),
        },
    }
}

} // verus!
