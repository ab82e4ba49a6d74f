//! The client side of the tunnel: keeping the control channel up, answering
//! the server's requests for data sockets, and what becomes of the two
//! sockets of a proxy task when it ends.

use bytes::BytesMut;
use crate::buffer::buf_contents;
use crate::protocol::CodecError;
use crate::protocol::RTCPMessage;
use crate::protocol::RTCPType;
use crate::splice::Side;
use crate::stream::Drained;
use crate::protocol::MessageView;
use crate::stream::all_frameable;
use crate::stream::all_received;
use crate::stream::decode_all;
use crate::stream::encode_frames;
use crate::stream::joined;
use crate::stream::lemma_any_reads;
use crate::stream::message_views;
use crate::stream::read_frames;
use crate::stream::read_in_turns;
use crate::tcp_pool::RecycleRefusal;
use crate::tcp_pool::TcpStreamData;
use crate::tcp_pool::recycle_verdict;
use vstd::prelude::*;

verus! {

/// How long the client waits before it dials the server again.
pub const RETRY_DELAY_MS: u64 = 1000;

/// How often the client sends a heartbeat.
pub const HEARTBEAT_PERIOD_MS: u64 = 10000;

/// Where the client stands.
#[derive(Debug, Clone, Copy, PartialEq, Eq, Structural)]
pub enum ClientState {
    /// No control channel: the client dials the server.
    Dialing,
    /// The control channel is up and `Initialize` was sent.
    Connected,
}

/// What happens to the client.
#[derive(Debug, Clone, Copy, PartialEq, Eq, Structural)]
pub enum ClientEvent {
    /// The server could not be reached.
    DialFailed,
    /// The control channel is open.
    Dialed,
    /// A heartbeat period has passed.
    HeartbeatDue,
    /// Writing to the control channel failed.
    WriteFailed,
    /// A message of this kind was read from the control channel.
    Frame(RTCPType),
    /// What was read from the control channel is no message.
    Invalid,
    /// The control channel ended, or reading failed.
    Closed,
}

/// What the client does about an event.
#[derive(Debug, Clone, Copy, PartialEq, Eq, Structural)]
pub enum ClientAction {
    Nothing,
    /// Wait this many milliseconds, then dial again.
    RetryAfter(u64),
    /// Send `Initialize` with this access port, and start the heartbeat.
    Greet(u16),
    /// Send one heartbeat.
    SendHeartbeat,
    /// Couple one backend socket with one new data socket.
    SpawnProxy,
    /// Stop the heartbeat, drop the control channel and dial again.
    Reconnect,
}

/// One step of the client, which asks the server for `access_port`. Only a
/// request for a new connection makes it spawn a proxy; the other kinds of
/// message change nothing.
pub open spec fn client_step(state: ClientState, access_port: u16, event: ClientEvent) -> (
    ClientState,
    ClientAction,
) {
    match state {
        ClientState::Dialing => match event {
            ClientEvent::DialFailed => (
                ClientState::Dialing,
                ClientAction::RetryAfter(RETRY_DELAY_MS),
            ),
            ClientEvent::Dialed => (ClientState::Connected, ClientAction::Greet(access_port)),
            _ => (ClientState::Dialing, ClientAction::Nothing),
        },
        ClientState::Connected => match event {
            ClientEvent::HeartbeatDue => (ClientState::Connected, ClientAction::SendHeartbeat),
            ClientEvent::Frame(RTCPType::NewConnection) => (
                ClientState::Connected,
                ClientAction::SpawnProxy,
            ),
            ClientEvent::WriteFailed => (ClientState::Dialing, ClientAction::Reconnect),
            ClientEvent::Invalid => (ClientState::Dialing, ClientAction::Reconnect),
            ClientEvent::Closed => (ClientState::Dialing, ClientAction::Reconnect),
            _ => (ClientState::Connected, ClientAction::Nothing),
        },
    }
}

/// The steps of the client over a run of events.
pub open spec fn client_run(state: ClientState, access_port: u16, events: Seq<ClientEvent>) -> (
    ClientState,
    Seq<ClientAction>,
)
    decreases events.len(),
{
    if events.len() == 0 {
        (state, Seq::empty())
    } else {
        let first = client_step(state, access_port, events[0]);
        let rest = client_run(first.0, access_port, events.drop_first());
        (rest.0, seq![first.1] + rest.1)
    }
}

/// The events that the bytes read from the control channel amount to: one
/// for each message, and one more where what follows is no message.
pub open spec fn events_of(read: Drained) -> Seq<ClientEvent> {
    Seq::new(read.messages.len(), |i: int| ClientEvent::Frame(read.messages[i].message_type))
        + if read.stop == CodecError::Invalid {
        seq![ClientEvent::Invalid]
    } else {
        Seq::empty()
    }
}

/// From where the client stands, a heartbeat is never the first thing it
/// sends on a control channel: before every heartbeat in a run of actions
/// the client was connected at the start or has greeted the server.
pub proof fn lemma_greeting_comes_first(
    state: ClientState,
    access_port: u16,
    events: Seq<ClientEvent>,
    j: int,
)
    requires
        0 <= j < client_run(state, access_port, events).1.len(),
        client_run(state, access_port, events).1[j] is SendHeartbeat,
    ensures
        state is Connected || exists|i: int|
            0 <= i < j && client_run(state, access_port, events).1[i] is Greet,
    decreases events.len(),
{
    let acts = client_run(state, access_port, events).1;
    if events.len() > 0 {
        let first = client_step(state, access_port, events[0]);
        let rest = client_run(first.0, access_port, events.drop_first());
        assert(acts =~= seq![first.1] + rest.1);
        if j > 0 && !(state is Connected) {
            assert(rest.1[j - 1] == acts[j]);
            lemma_greeting_comes_first(first.0, access_port, events.drop_first(), j - 1);
            if first.0 is Connected {
                assert(acts[0] is Greet);
            } else {
                let i = choose|i: int| 0 <= i < j - 1 && rest.1[i] is Greet;
                assert(acts[i + 1] == rest.1[i]);
            }
        }
    }
}

/// What the client does about the messages `ms` while it is connected:
/// for each message in turn, a proxy for a request for a new connection and
/// nothing for any other kind.
pub open spec fn answers(ms: Seq<MessageView>) -> Seq<ClientAction> {
    Seq::new(
        ms.len(),
        |i: int|
            if ms[i].message_type == RTCPType::NewConnection {
                ClientAction::SpawnProxy
            } else {
                ClientAction::Nothing
            },
    )
}

/// The steps of the client over several reads from the control channel:
/// each read is put behind what the buffer still holds, and the client is
/// stepped through the messages that are complete then.
pub open spec fn client_over_reads(
    state: ClientState,
    access_port: u16,
    rest: Seq<u8>,
    reads: Seq<Seq<u8>>,
) -> (ClientState, Seq<ClientAction>)
    decreases reads.len(),
{
    if reads.len() == 0 {
        (state, Seq::empty())
    } else {
        let read = decode_all(rest + reads[0]);
        let now = client_run(state, access_port, events_of(read));
        let later = client_over_reads(now.0, access_port, read.rest, reads.drop_first());
        (later.0, now.1 + later.1)
    }
}

/// A connected client that reads messages stays connected and answers each
/// of them as `answers` says.
pub proof fn lemma_connected_answers(access_port: u16, ms: Seq<MessageView>)
    ensures
        client_run(
            ClientState::Connected,
            access_port,
            Seq::new(ms.len(), |i: int| ClientEvent::Frame(ms[i].message_type)),
        ) == (ClientState::Connected, answers(ms)),
    decreases ms.len(),
{
    let events = Seq::new(ms.len(), |i: int| ClientEvent::Frame(ms[i].message_type));
    if ms.len() == 0 {
        assert(answers(ms) =~= Seq::<ClientAction>::empty());
    } else {
        let later = ms.drop_first();
        lemma_connected_answers(access_port, later);
        assert(events.drop_first() =~= Seq::new(
            later.len(),
            |i: int| ClientEvent::Frame(later[i].message_type),
        ));
        let first = client_step(ClientState::Connected, access_port, events[0]);
        assert(answers(ms) =~= seq![first.1] + answers(later));
    }
}

/// Over reads that bring whole messages and never anything that is no
/// message, a connected client answers the messages of all the reads
/// together.
proof fn lemma_answers_over_reads(access_port: u16, rest: Seq<u8>, reads: Seq<Seq<u8>>)
    requires
        read_in_turns(rest, reads).stop == CodecError::NeedMore,
    ensures
        client_over_reads(ClientState::Connected, access_port, rest, reads) == (
            ClientState::Connected,
            answers(read_in_turns(rest, reads).messages),
        ),
    decreases reads.len(),
{
    if reads.len() == 0 {
        assert(answers(Seq::<MessageView>::empty()) =~= Seq::<ClientAction>::empty());
    } else {
        let read = decode_all(rest + reads[0]);
        let later = read_in_turns(read.rest, reads.drop_first());
        assert(events_of(read) =~= Seq::new(
            read.messages.len(),
            |i: int| ClientEvent::Frame(read.messages[i].message_type),
        ));
        lemma_connected_answers(access_port, read.messages);
        lemma_answers_over_reads(access_port, read.rest, reads.drop_first());
        assert(answers(read.messages + later.messages) =~= answers(read.messages) + answers(
            later.messages,
        ));
    }
}

/// In however many reads the server's messages arrive and wherever the
/// reads cut them, a connected client spawns one proxy for each request for
/// a new connection and none for any other message, and stays connected.
pub proof fn lemma_one_proxy_for_each_request(
    access_port: u16,
    ms: Seq<MessageView>,
    reads: Seq<Seq<u8>>,
)
    requires
        all_frameable(ms),
        joined(reads) == encode_frames(ms),
    ensures
        client_over_reads(ClientState::Connected, access_port, Seq::empty(), reads) == (
            ClientState::Connected,
            answers(ms),
        ),
{
    lemma_any_reads(ms, reads);
    lemma_answers_over_reads(access_port, Seq::empty(), reads);
    assert(answers(all_received(ms)) =~= answers(ms));
}

/// Decides one step of the client.
pub fn on_event(state: ClientState, access_port: u16, event: ClientEvent) -> (r: (
    ClientState,
    ClientAction,
))
    ensures
        r == client_step(state, access_port, event),
{
    match state {
        ClientState::Dialing => match event {
            ClientEvent::DialFailed => (
                ClientState::Dialing,
                ClientAction::RetryAfter(RETRY_DELAY_MS),
            ),
            ClientEvent::Dialed => (ClientState::Connected, ClientAction::Greet(access_port)),
            _ => (ClientState::Dialing, ClientAction::Nothing),
        },
        ClientState::Connected => match event {
            ClientEvent::HeartbeatDue => (ClientState::Connected, ClientAction::SendHeartbeat),
            ClientEvent::Frame(RTCPType::NewConnection) => (
                ClientState::Connected,
                ClientAction::SpawnProxy,
            ),
            ClientEvent::WriteFailed => (ClientState::Dialing, ClientAction::Reconnect),
            ClientEvent::Invalid => (ClientState::Dialing, ClientAction::Reconnect),
            ClientEvent::Closed => (ClientState::Dialing, ClientAction::Reconnect),
            _ => (ClientState::Connected, ClientAction::Nothing),
        },
    }
}

/// The first message on a control channel.
pub fn greeting(access_port: u16) -> (m: RTCPMessage)
    ensures
        m@.message_type == RTCPType::Initialize(access_port),
        m@.connect_id is None,
{
    RTCPMessage::with_uuid(RTCPType::Initialize(access_port), 0)
}

/// The message that tells the server that the client is alive.
pub fn heartbeat() -> (m: RTCPMessage)
    ensures
        m@.message_type == RTCPType::Heartbeat,
        m@.connect_id is None,
{
    RTCPMessage::with_uuid(RTCPType::Heartbeat, 0)
}

/// What reading from the control channel led to.
#[derive(Debug)]
pub struct ClientProgress {
    /// Where the client stands now.
    pub state: ClientState,
    /// What to do, in order: one action for each event.
    pub actions: Vec<ClientAction>,
}

/// Takes the messages that have arrived in `buf` off the buffer and steps
/// the client through them.
pub fn on_control_bytes(state: ClientState, access_port: u16, buf: &mut BytesMut) -> (r:
    ClientProgress)
    ensures
        buf_contents(*final(buf)) == decode_all(buf_contents(*old(buf))).rest,
        (r.state, r.actions@) == client_run(
            state,
            access_port,
            events_of(decode_all(buf_contents(*old(buf)))),
        ),
{
    let ghost read = decode_all(buf_contents(*buf));
    let ghost events = events_of(read);
    let batch = read_frames(buf);
    let mut now = state;
    let mut actions: Vec<ClientAction> = Vec::new();
    let n: usize = batch.messages.len();
    let mut i: usize = 0;
    proof {
        assert(events.skip(0) =~= events);
    }
    while i < n
        invariant
            n == batch.messages@.len(),
            n == read.messages.len(),
            i <= n,
            message_views(batch.messages@) == read.messages,
            events == events_of(read),
            ({
                let rest = client_run(now, access_port, events.skip(i as int));
                client_run(state, access_port, events) == (rest.0, actions@ + rest.1)
            }),
        decreases n - i,
    {
        let ghost tail = events.skip(i as int);
        let ghost had = actions@;
        let ghost was = now;
        let kind = batch.messages[i].message_type;
        proof {
            assert(message_views(batch.messages@)[i as int] == batch.messages@[i as int]@);
            assert(tail[0] == ClientEvent::Frame(kind));
            assert(tail.drop_first() =~= events.skip(i + 1));
        }
        let (next, action) = on_event(now, access_port, ClientEvent::Frame(kind));
        now = next;
        actions.push(action);
        proof {
            let rest = client_run(now, access_port, events.skip(i + 1));
            assert(client_run(was, access_port, tail) == (rest.0, seq![action] + rest.1));
            assert(actions@ + rest.1 =~= had + (seq![action] + rest.1));
        }
        i += 1;
    }
    let ghost tail = events.skip(n as int);
    match batch.stop {
        CodecError::Invalid => {
            let ghost had = actions@;
            let ghost was = now;
            proof {
                assert(tail =~= seq![ClientEvent::Invalid]);
                assert(tail.drop_first() =~= Seq::<ClientEvent>::empty());
            }
            let (next, action) = on_event(now, access_port, ClientEvent::Invalid);
            now = next;
            actions.push(action);
            proof {
                let rest = client_run(now, access_port, tail.drop_first());
                assert(client_run(was, access_port, tail) == (rest.0, seq![action] + rest.1));
                assert(actions@ =~= had + (seq![action] + rest.1));
            }
        },
        CodecError::NeedMore => {
            proof {
                assert(tail =~= Seq::<ClientEvent>::empty());
                assert(actions@ + Seq::<ClientAction>::empty() =~= actions@);
            }
        },
    }
    ClientProgress { state: now, actions }
}

/// The backend socket after a proxy task that ended at time `now`: marked
/// as disconnected where the data socket ended first, stamped with the
/// time of its release otherwise.
pub open spec fn backend_after(backend: TcpStreamData, first_closed: Side, now: u64) -> TcpStreamData {
    match first_closed {
        Side::Tunnel => TcpStreamData {
            id: backend.id,
            disconnect: true,
            latest_time: backend.latest_time,
        },
        Side::Near => TcpStreamData {
            id: backend.id,
            disconnect: backend.disconnect,
            latest_time: Some(now),
        },
    }
}

/// A proxy task is over at time `now`. The data socket is never used again:
/// it is marked as disconnected and has to be shut down. The backend socket
/// is marked or stamped as `backend_after` says.
pub fn end_proxy(backend: &mut TcpStreamData, data: &mut TcpStreamData, first_closed: Side, now: u64)
    ensures
        *final(backend) == backend_after(*old(backend), first_closed, now),
        *final(data) == (TcpStreamData {
            id: old(data).id,
            disconnect: true,
            latest_time: old(data).latest_time,
        }),
{
    data.disconnect = true;
    match first_closed {
        Side::Tunnel => {
            backend.disconnect = true;
        },
        Side::Near => {
            backend.latest_time = Some(now);
        },
    }
}

/// After a proxy task the data socket is never taken back by a pool, and
/// the backend socket is not either where the data socket ended first. A
/// backend socket that was whole and is stamped is taken back up to
/// ten seconds later.
pub proof fn lemma_after_proxy(
    backend: TcpStreamData,
    data: TcpStreamData,
    first_closed: Side,
    now: u64,
    later: u64,
)
    ensures
        recycle_verdict(
            TcpStreamData { id: data.id, disconnect: true, latest_time: data.latest_time },
            later,
        ) == Err::<(), RecycleRefusal>(RecycleRefusal::Disconnected),
        first_closed == Side::Tunnel ==> recycle_verdict(
            backend_after(backend, first_closed, now),
            later,
        ) == Err::<(), RecycleRefusal>(RecycleRefusal::Disconnected),
        first_closed == Side::Near && !backend.disconnect && later <= now + 10000
            ==> recycle_verdict(backend_after(backend, first_closed, now), later) is Ok,
{
}

} // verus!
