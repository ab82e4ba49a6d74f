//! Pooled sockets: what the tunnel remembers of each, when one may be used
//! again, and the bounded pool of data sockets on the server.
//!
//! Times are milliseconds on a clock that never runs backwards; the caller
//! reads the clock.

use crate::decimal::decimal_digits;
use crate::decimal::push_decimal;
use crate::ids::random_uuid;
use crate::text::append;
use deadpool::unmanaged::Pool;
use vstd::prelude::*;
use vstd::utf8::encode_utf8;

verus! {

/// How many data sockets the server's pool holds at most, those in use
/// counted.
pub const POOL_CAPACITY: usize = 1000;

/// A socket released this long ago or longer is not handed to a user.
pub const STALE_AFTER_MS: u64 = 8000;

/// A socket released longer ago than this is not taken back by the
/// client's pools.
pub const RECYCLE_TTL_MS: u64 = 10000;

/// Why a pool could not make a socket.
#[derive(Debug, Clone, Copy, PartialEq, Eq, Structural)]
pub enum Error {
    Fail,
}

/// Why a pool does not take a socket back.
#[derive(Debug, Clone, Copy, PartialEq, Eq, Structural)]
pub enum RecycleRefusal {
    /// The socket was marked as disconnected.
    Disconnected,
    /// The socket lay unused for longer than `RECYCLE_TTL_MS`.
    Expired,
}

/// What the tunnel remembers of one pooled socket. There is one such value
/// for each socket, and it is never copied: who holds it has the socket.
#[derive(Debug, PartialEq, Eq, Structural)]
pub struct TcpStreamData {
    /// A random identifier.
    pub id: u128,
    /// The peer is known to be gone.
    pub disconnect: bool,
    /// When the socket was last released after use.
    pub latest_time: Option<u64>,
}

/// How long ago `latest` was, seen from `now`.
pub open spec fn age(latest: u64, now: u64) -> nat {
    if now >= latest {
        (now - latest) as nat
    } else {
        0
    }
}

/// The socket was released `STALE_AFTER_MS` ago or longer.
pub open spec fn is_stale(socket: TcpStreamData, now: u64) -> bool {
    socket.latest_time matches Some(t) && age(t, now) >= STALE_AFTER_MS
}

/// Whether a pool takes the socket back, and if not, why.
pub open spec fn recycle_verdict(socket: TcpStreamData, now: u64) -> Result<(), RecycleRefusal> {
    if socket.disconnect {
        Err(RecycleRefusal::Disconnected)
    } else if socket.latest_time matches Some(t) && age(t, now) > RECYCLE_TTL_MS {
        Err(RecycleRefusal::Expired)
    } else {
        Ok(())
    }
}

impl TcpStreamData {
    /// A socket that was never used, under a fresh random identifier.
    pub fn new() -> (s: Self)
        ensures
            !s.disconnect,
            s.latest_time is None,
    {
        TcpStreamData::with_id(random_uuid())
    }

    /// A socket that was never used, under the identifier `id`.
    pub fn with_id(id: u128) -> (s: Self)
        ensures
            s == (TcpStreamData { id, disconnect: false, latest_time: None }),
    {
        TcpStreamData { id, disconnect: false, latest_time: None }
    }

    /// How long ago the socket was released, if it ever was.
    pub fn idle_for(&self, now: u64) -> (r: Option<u64>)
        ensures
            match self.latest_time {
                Some(t) => r == Some(age(t, now) as u64),
                None => r is None,
            },
    {
        match self.latest_time {
            Some(t) => if now >= t {
                Some(now - t)
            } else {
                Some(0)
            },
            None => None,
        }
    }

    /// Whether the socket lay unused too long to be handed to a user.
    pub fn stale(&self, now: u64) -> (r: bool)
        ensures
            r == is_stale(*self, now),
    {
        match self.idle_for(now) {
            Some(idle) => idle >= STALE_AFTER_MS,
            None => false,
        }
    }
}

/// Where a pool of the client dials to.
#[derive(Debug)]
pub struct TcpPoolManager {
    name: String,
    host: String,
    port: u16,
}

impl TcpPoolManager {
    /// The name of the pool.
    pub closed spec fn name(&self) -> Seq<char> {
        self.name@
    }

    /// The host to dial.
    pub closed spec fn host(&self) -> Seq<char> {
        self.host@
    }

    /// The port to dial.
    pub closed spec fn port(&self) -> u16 {
        self.port
    }

    /// A pool named `name` whose sockets are dialled to `host`, port `port`.
    pub fn new(name: String, host: String, port: u16) -> (m: Self)
        ensures
            m.name() == name@,
            m.host() == host@,
            m.port() == port,
    {
        TcpPoolManager { name, host, port }
    }

    /// The address to dial, as bytes of text: host, colon, port.
    pub fn address(&self) -> (out: Vec<u8>)
        ensures
            out@ == encode_utf8(self.host()) + seq![58u8] + decimal_digits(self.port() as nat),
    {
        let mut out: Vec<u8> = Vec::new();
        append(&mut out, self.host.as_str().as_bytes());
        out.push(58);
        push_decimal(&mut out, self.port as u64);
        proof {
            assert(out@ =~= encode_utf8(self.host()) + seq![58u8] + decimal_digits(
                self.port() as nat,
            ));
        }
        out
    }

    /// Whether the pool takes `socket` back at time `now`: not when it is
    /// disconnected, and not when it lay unused for longer than
    /// `RECYCLE_TTL_MS`.
    pub fn recycle(&self, socket: &TcpStreamData, now: u64) -> (r: Result<(), RecycleRefusal>)
        ensures
            r == recycle_verdict(*socket, now),
    {
        if socket.disconnect {
            return Err(RecycleRefusal::Disconnected);
        }
        match socket.idle_for(now) {
            Some(idle) => if idle > RECYCLE_TTL_MS {
                Err(RecycleRefusal::Expired)
            } else {
                Ok(())
            },
            None => Ok(()),
        }
    }
}

#[verifier::external_type_specification]
#[verifier::external_body]
#[verifier::reject_recursive_types(T)]
pub struct ExPool<T>(deadpool::unmanaged::Pool<T>);

/// The sockets that lie in a pool and wait to be taken, the one that goes
/// out next last.
pub uninterp spec fn pool_idle(pool: Pool<TcpStreamData>) -> Seq<TcpStreamData>;

/// How many more sockets a pool takes: the size it was made for, less the
/// sockets that belong to it. A closed pool takes none.
pub uninterp spec fn pool_room(pool: Pool<TcpStreamData>) -> nat;

/// `Pool::new`: an empty pool with room for `max_size` objects. The outside
/// function reserves memory for that many and sets up a semaphore of that
/// many permits, both of which fail on very large numbers.
#[verifier::external_body]
pub(crate) fn pool_new(max_size: usize) -> (pool: Pool<TcpStreamData>)
    requires
        max_size <= 1000000,
    ensures
        pool_idle(pool) == Seq::<TcpStreamData>::empty(),
        pool_room(pool) == max_size,
{
    Pool::new(max_size)
}

/// `Pool::try_add`: the object goes into the pool where there is room, on
/// top of those that lie there, and comes back in the error where there is
/// none.
#[verifier::external_body]
pub(crate) fn pool_try_add(pool: &mut Pool<TcpStreamData>, socket: TcpStreamData) -> (r: Result<
    (),
    TcpStreamData,
>)
    ensures
        match r {
            Ok(_) => pool_room(*old(pool)) > 0 && pool_idle(*final(pool)) == pool_idle(
                *old(pool),
            ).push(socket) && pool_room(*final(pool)) == pool_room(*old(pool)) - 1,
            Err(back) => pool_room(*old(pool)) == 0 && back == socket && pool_idle(*final(pool))
                == pool_idle(*old(pool)) && pool_room(*final(pool)) == 0,
        },
{
    match pool.try_add(socket) {
        Ok(()) => Ok(()),
        Err((back, _)) => Err(back),
    }
}

/// `Pool::try_remove`: the object that was added last leaves the pool for
/// good, which makes room for another; a pool in which none lies gives
/// none. The error of the outside function, which says no more, is dropped.
#[verifier::external_body]
pub(crate) fn pool_try_remove(pool: &mut Pool<TcpStreamData>) -> (r: Option<TcpStreamData>)
    ensures
        match r {
            Some(socket) => pool_idle(*old(pool)).len() > 0 && socket == pool_idle(
                *old(pool),
            ).last() && pool_idle(*final(pool)) == pool_idle(*old(pool)).drop_last()
                && pool_room(*final(pool)) == pool_room(*old(pool)) + 1,
            None => pool_idle(*old(pool)).len() == 0 && pool_idle(*final(pool)) == pool_idle(
                *old(pool),
            ) && pool_room(*final(pool)) == pool_room(*old(pool)),
        },
{
    pool.try_remove().ok()
}

/// `Pool::status`, its field `available`: the number of objects that lie in
/// the pool.
#[verifier::external_body]
pub(crate) fn pool_available(pool: &Pool<TcpStreamData>) -> (n: usize)
    ensures
        n == pool_idle(*pool).len(),
{
    pool.status().available
}

/// The sockets of `idle` that are left when every stale one is taken off the
/// end from which sockets go out.
pub open spec fn fresh_top(idle: Seq<TcpStreamData>, now: u64) -> Seq<TcpStreamData>
    decreases idle.len(),
{
    if idle.len() == 0 {
        idle
    } else if is_stale(idle.last(), now) {
        fresh_top(idle.drop_last(), now)
    } else {
        idle
    }
}

/// What is left after the stale sockets are taken off is the start of the
/// pool; it ends with a socket that is not stale, and all that was taken
/// off is stale.
pub proof fn lemma_fresh_top(idle: Seq<TcpStreamData>, now: u64)
    ensures
        fresh_top(idle, now).len() <= idle.len(),
        fresh_top(idle, now) == idle.take(fresh_top(idle, now).len() as int),
        fresh_top(idle, now).len() > 0 ==> !is_stale(fresh_top(idle, now).last(), now),
        forall|i: int| fresh_top(idle, now).len() <= i < idle.len() ==> is_stale(#[trigger] idle[i], now),
    decreases idle.len(),
{
    if idle.len() == 0 {
        assert(idle.take(0) =~= idle);
    } else if is_stale(idle.last(), now) {
        let shorter = idle.drop_last();
        lemma_fresh_top(shorter, now);
        let k = fresh_top(shorter, now).len() as int;
        assert(shorter.take(k) =~= idle.take(k));
        assert forall|i: int| k <= i < idle.len() implies is_stale(#[trigger] idle[i], now) by {
            if i < shorter.len() {
                assert(shorter[i] == idle[i]);
            }
        }
    } else {
        assert(idle.take(idle.len() as int) =~= idle);
    }
}

/// How full a pool is.
#[derive(Debug, Clone, Copy, PartialEq, Eq, Structural)]
pub struct PoolStatus {
    /// How many sockets the pool holds at most, those in use counted.
    pub max_size: usize,
    /// How many sockets belong to the pool, those in use counted.
    pub size: usize,
    /// How many sockets lie in the pool and wait for a user.
    pub available: usize,
}

/// What a checkout with the stale guard gives.
#[derive(Debug)]
pub struct Checkout {
    /// The socket for the user, if one that is not stale lay in the pool.
    pub socket: Option<TcpStreamData>,
    /// The stale sockets met on the way, which left the pool for good.
    pub evicted: Vec<TcpStreamData>,
}

/// The server's pool of data sockets. A socket lies in the pool, or is in
/// use by one session, or has left the pool for good.
pub struct SocketPool {
    pool: Pool<TcpStreamData>,
    in_use: usize,
}

impl SocketPool {
    /// The sockets that lie in the pool, the one that goes out next last.
    pub closed spec fn idle(&self) -> Seq<TcpStreamData> {
        pool_idle(self.pool)
    }

    /// The number of sockets in use by sessions.
    pub closed spec fn in_use(&self) -> nat {
        self.in_use as nat
    }

    /// The pool keeps count of its sockets.
    pub closed spec fn wf(&self) -> bool {
        &&& pool_idle(self.pool).len() + pool_room(self.pool) == POOL_CAPACITY
        &&& self.in_use <= pool_room(self.pool)
    }

    /// The pool never holds more than `POOL_CAPACITY` sockets, those in use
    /// counted.
    pub proof fn lemma_bounded(&self)
        requires
            self.wf(),
        ensures
            self.idle().len() + self.in_use() <= POOL_CAPACITY,
    {
    }

    /// An empty pool.
    pub fn new() -> (p: Self)
        ensures
            p.wf(),
            p.idle() == Seq::<TcpStreamData>::empty(),
            p.in_use() == 0,
    {
        SocketPool { pool: pool_new(POOL_CAPACITY), in_use: 0 }
    }

    /// How full the pool is.
    pub fn status(&self) -> (s: PoolStatus)
        requires
            self.wf(),
        ensures
            s.max_size == POOL_CAPACITY,
            s.available == self.idle().len(),
            s.size == self.idle().len() + self.in_use(),
    {
        let available: usize = pool_available(&self.pool);
        PoolStatus { max_size: POOL_CAPACITY, size: available + self.in_use, available }
    }

    /// Puts a new socket into the pool. A pool at capacity rejects it and
    /// hands it back.
    pub fn add(&mut self, socket: TcpStreamData) -> (r: Result<(), TcpStreamData>)
        requires
            old(self).wf(),
        ensures
            final(self).wf(),
            final(self).in_use() == old(self).in_use(),
            if old(self).idle().len() + old(self).in_use() < POOL_CAPACITY {
                r is Ok && final(self).idle() == old(self).idle().push(socket)
            } else {
                r == Err::<(), TcpStreamData>(socket) && final(self).idle() == old(self).idle()
            },
    {
        let available: usize = pool_available(&self.pool);
        if available + self.in_use >= POOL_CAPACITY {
            return Err(socket);
        }
        pool_try_add(&mut self.pool, socket)
    }

    /// Takes the socket that goes out next, if one lies in the pool. It is
    /// then in use.
    pub fn try_get(&mut self) -> (r: Option<TcpStreamData>)
        requires
            old(self).wf(),
        ensures
            final(self).wf(),
            match r {
                Some(socket) => old(self).idle().len() > 0 && socket == old(self).idle().last()
                    && final(self).idle() == old(self).idle().drop_last() && final(self).in_use() == old(self).in_use() + 1,
                None => old(self).idle().len() == 0 && final(self).idle() == old(self).idle()
                    && final(self).in_use() == old(self).in_use(),
            },
    {
        let r = pool_try_remove(&mut self.pool);
        if r.is_some() {
            self.in_use = self.in_use + 1;
        }
        r
    }

    /// Takes a socket for a user at time `now`. Stale sockets met on the way
    /// leave the pool for good and are handed out apart, so that they can
    /// be closed; a stale socket is never the one for the user.
    pub fn checkout(&mut self, now: u64) -> (r: Checkout)
        requires
            old(self).wf(),
        ensures
            final(self).wf(),
            ({
                let kept = fresh_top(old(self).idle(), now);
                if kept.len() > 0 {
                    &&& r.socket == Some(kept.last())
                    &&& final(self).idle() == kept.drop_last()
                    &&& final(self).in_use() == old(self).in_use() + 1
                } else {
                    &&& r.socket is None
                    &&& final(self).idle() == Seq::<TcpStreamData>::empty()
                    &&& final(self).in_use() == old(self).in_use()
                }
            }),
            r.socket matches Some(socket) ==> !is_stale(socket, now),
            r.evicted@.len() == old(self).idle().len() - fresh_top(old(self).idle(), now).len(),
            forall|i: int|
                0 <= i < r.evicted@.len() ==> #[trigger] r.evicted@[i] == old(self).idle()[old(self).idle().len() - 1 - i] && is_stale(r.evicted@[i], now),
    {
        let mut evicted: Vec<TcpStreamData> = Vec::new();
        proof {
            lemma_fresh_top(self.idle(), now);
        }
        loop
            invariant
                self.wf(),
                self.in_use() == old(self).in_use(),
                self.idle().len() + evicted@.len() == old(self).idle().len(),
                self.idle() == old(self).idle().take(self.idle().len() as int),
                fresh_top(self.idle(), now) == fresh_top(old(self).idle(), now),
                forall|i: int|
                    0 <= i < evicted@.len() ==> #[trigger] evicted@[i] == old(self).idle()[old(self).idle().len() - 1 - i] && is_stale(evicted@[i], now),
            decreases self.idle().len(),
        {
            let ghost before = self.idle();
            match pool_try_remove(&mut self.pool) {
                Some(socket) => {
                    proof {
                        assert(before.drop_last() =~= old(self).idle().take(before.len() - 1));
                    }
                    if socket.stale(now) {
                        evicted.push(socket);
                    } else {
                        self.in_use = self.in_use + 1;
                        return Checkout { socket: Some(socket), evicted };
                    }
                },
                None => {
                    proof {
                        assert(before =~= Seq::<TcpStreamData>::empty());
                    }
                    return Checkout { socket: None, evicted };
                },
            }
        }
    }

    /// Ends the use of a socket that is not to be used again: it leaves the
    /// pool for good and is handed back to be closed.
    pub fn take(&mut self, socket: TcpStreamData) -> (gone: TcpStreamData)
        requires
            old(self).wf(),
        ensures
            final(self).wf(),
            gone == socket,
            final(self).idle() == old(self).idle(),
            final(self).in_use() == if old(self).in_use() > 0 {
                old(self).in_use() - 1
            } else {
                0
            },
    {
        if self.in_use > 0 {
            self.in_use = self.in_use - 1;
        }
        socket
    }

    /// Ends the use of a socket that can be used again: it is stamped with
    /// the time `now` and lies in the pool again. Where no socket is in
    /// use, nothing is taken and the socket is handed back.
    pub fn give_back(&mut self, socket: TcpStreamData, now: u64) -> (r: Result<(), TcpStreamData>)
        requires
            old(self).wf(),
        ensures
            final(self).wf(),
            if old(self).in_use() > 0 {
                &&& r is Ok
                &&& final(self).in_use() == old(self).in_use() - 1
                &&& final(self).idle() == old(self).idle().push(
                    TcpStreamData {
                        id: socket.id,
                        disconnect: socket.disconnect,
                        latest_time: Some(now),
                    },
                )
            } else {
                &&& r == Err::<(), TcpStreamData>(socket)
                &&& final(self).in_use() == 0
                &&& final(self).idle() == old(self).idle()
            },
    {
        if self.in_use == 0 {
            return Err(socket);
        }
        let stamped = TcpStreamData {
            id: socket.id,
            disconnect: socket.disconnect,
            latest_time: Some(now),
        };
        self.in_use = self.in_use - 1;
        pool_try_add(&mut self.pool, stamped)
    }
}

} // verus!
