use rtcp::tcp_pool::Error;
use rtcp::tcp_pool::RecycleRefusal;
use rtcp::tcp_pool::SocketPool;
use rtcp::tcp_pool::TcpPoolManager;
use rtcp::tcp_pool::TcpStreamData;
use rtcp::tcp_pool::POOL_CAPACITY;
use rtcp::tcp_pool::RECYCLE_TTL_MS;
use rtcp::tcp_pool::STALE_AFTER_MS;

fn released(id: u128, at: u64) -> TcpStreamData {
    TcpStreamData {
        id,
        disconnect: false,
        latest_time: Some(at),
    }
}

#[test]
fn the_limits_are_those_of_the_protocol() {
    assert_eq!(POOL_CAPACITY, 1000);
    assert_eq!(STALE_AFTER_MS, 8000);
    assert_eq!(RECYCLE_TTL_MS, 10000);
    assert_eq!(format!("{:?}", Error::Fail), "Fail");
}

#[test]
fn a_new_socket_is_whole_and_unused() {
    let a = TcpStreamData::new();
    let b = TcpStreamData::new();
    assert!(!a.disconnect);
    assert_eq!(a.latest_time, None);
    assert_ne!(a.id, b.id);
    let c = TcpStreamData::with_id(7);
    assert_eq!(
        c,
        TcpStreamData {
            id: 7,
            disconnect: false,
            latest_time: None
        }
    );
    assert_eq!(c.idle_for(5), None);
    assert!(!c.stale(u64::MAX));
}

#[test]
fn idle_time_never_runs_backwards() {
    let s = released(1, 1000);
    assert_eq!(s.idle_for(1000), Some(0));
    assert_eq!(s.idle_for(1500), Some(500));
    assert_eq!(s.idle_for(999), Some(0));
    assert_eq!(s.idle_for(u64::MAX), Some(u64::MAX - 1000));
}

#[test]
fn stale_from_eight_seconds_on() {
    let s = released(1, 1000);
    assert!(!s.stale(1000));
    assert!(!s.stale(8999));
    assert!(s.stale(9000));
    assert!(s.stale(9001));
    assert!(!s.stale(0));
}

#[test]
fn recycle_refuses_the_disconnected_and_the_expired() {
    let mgr = TcpPoolManager::new("test".to_string(), "127.0.0.1".to_string(), 8081);
    let fresh = TcpStreamData::with_id(1);
    assert_eq!(mgr.recycle(&fresh, 123456), Ok(()));
    let gone = TcpStreamData {
        id: 2,
        disconnect: true,
        latest_time: None,
    };
    assert_eq!(mgr.recycle(&gone, 0), Err(RecycleRefusal::Disconnected));
    let used = released(3, 1000);
    assert_eq!(mgr.recycle(&used, 1000), Ok(()));
    assert_eq!(mgr.recycle(&used, 11000), Ok(()));
    assert_eq!(mgr.recycle(&used, 11001), Err(RecycleRefusal::Expired));
    assert_eq!(mgr.recycle(&used, 0), Ok(()));
    let both = TcpStreamData {
        id: 4,
        disconnect: true,
        latest_time: Some(0),
    };
    assert_eq!(mgr.recycle(&both, 20000), Err(RecycleRefusal::Disconnected));
}

#[test]
fn the_address_is_host_colon_port() {
    let mgr = TcpPoolManager::new("mgr_proxy".to_string(), "10.0.0.7".to_string(), 5533);
    assert_eq!(mgr.address(), b"10.0.0.7:5533".to_vec());
    let zero = TcpPoolManager::new(String::new(), "h".to_string(), 0);
    assert_eq!(zero.address(), b"h:0".to_vec());
}

#[test]
fn sockets_leave_the_pool_last_in_first_out() {
    let mut pool = SocketPool::new();
    assert_eq!(pool.status().available, 0);
    assert_eq!(pool.status().size, 0);
    assert_eq!(pool.status().max_size, 1000);
    assert_eq!(pool.try_get(), None);
    for id in 1..=3u128 {
        assert_eq!(pool.add(TcpStreamData::with_id(id)), Ok(()));
    }
    assert_eq!(pool.status().available, 3);
    assert_eq!(pool.try_get().map(|s| s.id), Some(3));
    assert_eq!(pool.status().available, 2);
    assert_eq!(pool.status().size, 3);
    assert_eq!(pool.try_get().map(|s| s.id), Some(2));
    assert_eq!(pool.try_get().map(|s| s.id), Some(1));
    assert_eq!(pool.try_get(), None);
    assert_eq!(pool.status().size, 3);
}

#[test]
fn the_pool_takes_a_thousand_sockets_and_rejects_the_next() {
    let mut pool = SocketPool::new();
    for id in 0..1000u128 {
        assert_eq!(pool.add(TcpStreamData::with_id(id)), Ok(()), "socket {}", id);
    }
    assert_eq!(pool.status().available, 1000);
    assert_eq!(
        pool.add(TcpStreamData::with_id(1000)),
        Err(TcpStreamData::with_id(1000))
    );
    assert_eq!(pool.status().available, 1000);
    assert_eq!(pool.status().size, 1000);
}

#[test]
fn sockets_in_use_count_towards_the_capacity() {
    let mut pool = SocketPool::new();
    for id in 0..1000u128 {
        assert_eq!(pool.add(TcpStreamData::with_id(id)), Ok(()));
    }
    let out = pool.try_get().unwrap();
    assert_eq!(pool.status().available, 999);
    assert_eq!(pool.status().size, 1000);
    assert_eq!(
        pool.add(TcpStreamData::with_id(5000)),
        Err(TcpStreamData::with_id(5000))
    );
    assert_eq!(pool.give_back(out, 77), Ok(()));
    assert_eq!(pool.status().available, 1000);
    let out = pool.try_get().unwrap();
    assert_eq!(out.latest_time, Some(77));
    assert_eq!(out.id, 999);
    assert_eq!(pool.take(out), released(999, 77));
    assert_eq!(pool.status().size, 999);
    assert_eq!(pool.add(TcpStreamData::with_id(5000)), Ok(()));
    assert_eq!(pool.status().size, 1000);
}

#[test]
fn checkout_passes_over_the_stale_and_hands_them_out_apart() {
    let mut pool = SocketPool::new();
    assert_eq!(pool.add(released(1, 0)), Ok(()));
    assert_eq!(pool.add(released(2, 5000)), Ok(()));
    assert_eq!(pool.add(released(3, 1000)), Ok(()));
    assert_eq!(pool.add(released(4, 2000)), Ok(()));
    let got = pool.checkout(10000);
    assert_eq!(got.socket, Some(released(2, 5000)));
    let gone: Vec<u128> = got.evicted.iter().map(|s| s.id).collect();
    assert_eq!(gone, vec![4, 3]);
    assert_eq!(pool.status().available, 1);
    assert_eq!(pool.status().size, 2);
    let got = pool.checkout(10000);
    assert_eq!(got.socket, None);
    let gone: Vec<u128> = got.evicted.iter().map(|s| s.id).collect();
    assert_eq!(gone, vec![1]);
    assert_eq!(pool.status().available, 0);
    assert_eq!(pool.status().size, 1);
}

#[test]
fn a_socket_released_eight_seconds_ago_is_not_handed_out() {
    let mut pool = SocketPool::new();
    assert_eq!(pool.add(released(1, 2000)), Ok(()));
    let got = pool.checkout(10000);
    assert_eq!(got.socket, None);
    assert_eq!(got.evicted.len(), 1);
    assert_eq!(pool.add(released(2, 2001)), Ok(()));
    let got = pool.checkout(10000);
    assert_eq!(got.socket.map(|s| s.id), Some(2));
    assert!(got.evicted.is_empty());
}

#[test]
fn a_socket_that_was_never_used_is_never_stale() {
    let mut pool = SocketPool::new();
    assert_eq!(pool.add(TcpStreamData::with_id(1)), Ok(()));
    let got = pool.checkout(u64::MAX);
    assert_eq!(got.socket.map(|s| s.id), Some(1));
}

#[test]
fn nothing_is_given_back_that_was_not_taken() {
    let mut pool = SocketPool::new();
    assert_eq!(
        pool.give_back(TcpStreamData::with_id(9), 1),
        Err(TcpStreamData::with_id(9))
    );
    assert_eq!(pool.take(TcpStreamData::with_id(9)), TcpStreamData::with_id(9));
    assert_eq!(pool.status().size, 0);
    assert_eq!(pool.status().available, 0);
}
