use bytes::BytesMut;
use rtcp::client::end_proxy;
use rtcp::client::greeting;
use rtcp::client::heartbeat;
use rtcp::client::on_control_bytes;
use rtcp::client::on_event;
use rtcp::client::ClientAction;
use rtcp::client::ClientEvent;
use rtcp::client::ClientState;
use rtcp::client::HEARTBEAT_PERIOD_MS;
use rtcp::client::RETRY_DELAY_MS;
use rtcp::protocol::RTCPType;
use rtcp::splice::Side;
use rtcp::tcp_pool::RecycleRefusal;
use rtcp::tcp_pool::TcpPoolManager;
use rtcp::tcp_pool::TcpStreamData;

#[test]
fn the_periods_are_fixed() {
    assert_eq!(RETRY_DELAY_MS, 1000);
    assert_eq!(HEARTBEAT_PERIOD_MS, 10000);
}

#[test]
fn dialing_is_retried_after_a_second_until_it_succeeds() {
    let mut state = ClientState::Dialing;
    for _ in 0..5 {
        let (s, a) = on_event(state, 3361, ClientEvent::DialFailed);
        assert_eq!((s, a), (ClientState::Dialing, ClientAction::RetryAfter(1000)));
        state = s;
    }
    let (s, a) = on_event(state, 3361, ClientEvent::Dialed);
    assert_eq!((s, a), (ClientState::Connected, ClientAction::Greet(3361)));
    assert_eq!(&greeting(3361).serialize()[..], b"initialize:3361 \r\n");
}

#[test]
fn while_dialing_nothing_else_counts() {
    for event in [
        ClientEvent::HeartbeatDue,
        ClientEvent::WriteFailed,
        ClientEvent::Frame(RTCPType::NewConnection),
        ClientEvent::Invalid,
        ClientEvent::Closed,
    ] {
        assert_eq!(
            on_event(ClientState::Dialing, 1, event),
            (ClientState::Dialing, ClientAction::Nothing)
        );
    }
}

#[test]
fn a_heartbeat_goes_out_each_period() {
    let (s, a) = on_event(ClientState::Connected, 1, ClientEvent::HeartbeatDue);
    assert_eq!((s, a), (ClientState::Connected, ClientAction::SendHeartbeat));
    assert_eq!(&heartbeat().serialize()[..], b"heartbeat \r\n");
}

#[test]
fn only_a_new_connection_spawns_a_proxy() {
    let c = ClientState::Connected;
    assert_eq!(
        on_event(c, 1, ClientEvent::Frame(RTCPType::NewConnection)),
        (c, ClientAction::SpawnProxy)
    );
    for kind in [
        RTCPType::Initialize(5),
        RTCPType::Heartbeat,
        RTCPType::CloseConnection,
    ] {
        assert_eq!(
            on_event(c, 1, ClientEvent::Frame(kind)),
            (c, ClientAction::Nothing)
        );
    }
    assert_eq!(on_event(c, 1, ClientEvent::Dialed), (c, ClientAction::Nothing));
    assert_eq!(on_event(c, 1, ClientEvent::DialFailed), (c, ClientAction::Nothing));
}

#[test]
fn a_lost_channel_is_dialled_again() {
    for event in [
        ClientEvent::Closed,
        ClientEvent::WriteFailed,
        ClientEvent::Invalid,
    ] {
        assert_eq!(
            on_event(ClientState::Connected, 1, event),
            (ClientState::Dialing, ClientAction::Reconnect)
        );
    }
}

#[test]
fn one_proxy_for_each_request_in_a_read() {
    let mut buf = BytesMut::from(
        &b"new_connection 550e8400-e29b-41d4-a716-446655440000\r\nheartbeat \r\nnew_connection \r\nclose_connection \r\nnew_conn"[..],
    );
    let p = on_control_bytes(ClientState::Connected, 3361, &mut buf);
    assert_eq!(p.state, ClientState::Connected);
    assert_eq!(
        p.actions,
        vec![
            ClientAction::SpawnProxy,
            ClientAction::Nothing,
            ClientAction::SpawnProxy,
            ClientAction::Nothing
        ]
    );
    assert_eq!(&buf[..], b"new_conn");
    buf.extend_from_slice(b"ection x\r\n");
    let p = on_control_bytes(p.state, 3361, &mut buf);
    assert_eq!(p.actions, vec![ClientAction::SpawnProxy]);
    assert!(buf.is_empty());
}

#[test]
fn bytes_that_are_no_message_drop_the_channel() {
    let mut buf = BytesMut::from(&b"new_connection a\r\nbogus \r\nnew_connection b\r\n"[..]);
    let p = on_control_bytes(ClientState::Connected, 3361, &mut buf);
    assert_eq!(p.state, ClientState::Dialing);
    assert_eq!(p.actions, vec![ClientAction::SpawnProxy, ClientAction::Reconnect]);
}

#[test]
fn after_a_proxy_task_the_data_socket_is_done_with() {
    let mgr = TcpPoolManager::new("nestjs".to_string(), "127.0.0.1".to_string(), 8083);
    let mut backend = TcpStreamData::with_id(1);
    let mut data = TcpStreamData::with_id(2);
    end_proxy(&mut backend, &mut data, Side::Tunnel, 500);
    assert!(data.disconnect);
    assert_eq!(data.latest_time, None);
    assert!(backend.disconnect);
    assert_eq!(backend.latest_time, None);
    assert_eq!(mgr.recycle(&backend, 600), Err(RecycleRefusal::Disconnected));
    assert_eq!(mgr.recycle(&data, 600), Err(RecycleRefusal::Disconnected));

    let mut backend = TcpStreamData::with_id(3);
    let mut data = TcpStreamData::with_id(4);
    end_proxy(&mut backend, &mut data, Side::Near, 500);
    assert!(data.disconnect);
    assert!(!backend.disconnect);
    assert_eq!(backend.latest_time, Some(500));
    assert_eq!(backend.id, 3);
    assert_eq!(mgr.recycle(&backend, 10500), Ok(()));
    assert_eq!(mgr.recycle(&backend, 10501), Err(RecycleRefusal::Expired));
    assert_eq!(mgr.recycle(&data, 500), Err(RecycleRefusal::Disconnected));
}

#[test]
fn one_proxy_for_each_request_however_the_reads_cut_the_stream() {
    let stream: &[u8] = b"new_connection 550e8400-e29b-41d4-a716-446655440000\r\nheartbeat \r\ninitialize:80 \r\nnew_connection \r\nclose_connection \r\nnew_connection x y\r\n";
    for size in [1usize, 2, 3, 5, 8, 13, 21, 34, 55, 500] {
        let mut state = ClientState::Connected;
        let mut buf = BytesMut::new();
        let mut actions: Vec<ClientAction> = Vec::new();
        for chunk in stream.chunks(size) {
            buf.extend_from_slice(chunk);
            let p = on_control_bytes(state, 3361, &mut buf);
            state = p.state;
            actions.extend(p.actions);
        }
        assert_eq!(state, ClientState::Connected);
        assert!(buf.is_empty());
        assert_eq!(
            actions,
            vec![
                ClientAction::SpawnProxy,
                ClientAction::Nothing,
                ClientAction::Nothing,
                ClientAction::SpawnProxy,
                ClientAction::Nothing,
                ClientAction::SpawnProxy
            ],
            "reads of {}",
            size
        );
    }
}
