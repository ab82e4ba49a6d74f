//! A table of the connections that are open, found by their id.

use crate::protocol::ConnectId;
use crate::text::same_text;
use vstd::prelude::*;

verus! {

/// Why the table did not do what was asked.
#[derive(Debug, Clone, Copy, PartialEq, Eq, Structural)]
pub enum ManageError {
    /// A connection without id has no place in the table.
    NoConnectId,
}

/// One tunnelled connection: the socket on which it came in, the socket on
/// which it goes out, and its id.
#[derive(Debug)]
pub struct RTCPConnection<S> {
    pub income_tcp: S,
    pub outcome_tcp: S,
    pub connect_id: ConnectId,
}

/// The text of an id, none where there is no id.
pub open spec fn id_text(id: ConnectId) -> Option<Seq<char>> {
    match id {
        Some(text) => Some(text@),
        None => None,
    }
}

/// The index of the connection with the id `id`, if there is one.
pub open spec fn slot<S>(table: Seq<RTCPConnection<S>>, id: Seq<char>) -> Option<int> {
    if exists|i: int| 0 <= i < table.len() && id_text(table[i].connect_id) == Some(id) {
        Some(choose|i: int| 0 <= i < table.len() && id_text(table[i].connect_id) == Some(id))
    } else {
        None
    }
}

/// Every connection has an id, and no two have the same.
pub open spec fn well_keyed<S>(table: Seq<RTCPConnection<S>>) -> bool {
    &&& forall|i: int| 0 <= i < table.len() ==> (#[trigger] table[i]).connect_id is Some
    &&& forall|i: int, j: int|
        0 <= i < table.len() && 0 <= j < table.len() && i != j ==> id_text(
            (#[trigger] table[i]).connect_id,
        ) != id_text((#[trigger] table[j]).connect_id)
}

/// In a well-keyed table a connection is found at its own index.
pub proof fn lemma_slot<S>(table: Seq<RTCPConnection<S>>, i: int)
    requires
        well_keyed(table),
        0 <= i < table.len(),
    ensures
        slot(table, table[i].connect_id->0@) == Some(i),
{
    let id = table[i].connect_id->0@;
    let c = choose|k: int| 0 <= k < table.len() && id_text(table[k].connect_id) == Some(id);
    if c != i {
        assert(id_text(table[c].connect_id) != id_text(table[i].connect_id));
    }
}

/// The table of open connections.
#[derive(Debug)]
pub struct RTCPManager<S> {
    inner: Vec<RTCPConnection<S>>,
}

impl<S> View for RTCPManager<S> {
    type V = Seq<RTCPConnection<S>>;

    closed spec fn view(&self) -> Seq<RTCPConnection<S>> {
        self.inner@
    }
}

impl<S> RTCPManager<S> {
    /// Every connection has an id, and no two have the same.
    #[verifier::type_invariant]
    pub open spec fn wf(&self) -> bool {
        well_keyed(self@)
    }

    /// An empty table.
    pub fn new() -> (m: Self)
        ensures
            m@ == Seq::<RTCPConnection<S>>::empty(),
    {
        RTCPManager { inner: Vec::new() }
    }

    /// Whether `connect_id` can stand in the table: only an id that is there.
    fn check_connect_id(&self, connect_id: &ConnectId) -> (r: Result<bool, ManageError>)
        ensures
            match *connect_id {
                Some(_) => r == Ok::<bool, ManageError>(true),
                None => r == Err::<bool, ManageError>(ManageError::NoConnectId),
            },
    {
        if connect_id.is_none() {
            return Err(ManageError::NoConnectId);
        }
        Ok(true)
    }

    /// The index of the connection with the id `id`.
    fn find(&self, id: &str) -> (r: Option<usize>)
        ensures
            match r {
                Some(i) => slot(self@, id@) == Some(i as int) && i < self@.len(),
                None => slot(self@, id@) is None,
            },
    {
        proof {
            use_type_invariant(self);
        }
        let n: usize = self.inner.len();
        let mut i: usize = 0;
        while i < n
            invariant
                n == self@.len(),
                i <= n,
                well_keyed(self@),
                forall|j: int| 0 <= j < i ==> id_text((#[trigger] self@[j]).connect_id) != Some(id@),
            decreases n - i,
        {
            let found = match &self.inner[i].connect_id {
                Some(text) => same_text(text.as_str(), id),
                None => false,
            };
            if found {
                proof {
                    lemma_slot(self@, i as int);
                }
                return Some(i);
            }
            i += 1;
        }
        None
    }

    /// Puts a connection into the table, in the place of the one with the
    /// same id if there is one. A connection without id is refused.
    pub fn add_connection(&mut self, connection: RTCPConnection<S>) -> (r: Result<(), ManageError>)
        ensures
            match connection.connect_id {
                None => r == Err::<(), ManageError>(ManageError::NoConnectId) && final(self)@
                    == old(self)@,
                Some(id) => r == Ok::<(), ManageError>(()) && final(self)@ == match slot(
                    old(self)@,
                    id@,
                ) {
                    Some(i) => old(self)@.update(i, connection),
                    None => old(self)@.push(connection),
                },
            },
    {
        proof {
            use_type_invariant(&*self);
        }
        match self.check_connect_id(&connection.connect_id) {
            Err(e) => {
                return Err(e);
            },
            Ok(_) => {},
        }
        let found = match &connection.connect_id {
            Some(id) => self.find(id.as_str()),
            None => None,
        };
        let mut taken = RTCPManager::new();
        core::mem::swap(self, &mut taken);
        let mut inner = taken.inner;
        let ghost before = inner@;
        match found {
            Some(i) => {
                inner.set(i, connection);
                proof {
                    assert forall|a: int, b: int|
                        0 <= a < inner@.len() && 0 <= b < inner@.len() && a != b implies id_text(
                        (#[trigger] inner@[a]).connect_id,
                    ) != id_text((#[trigger] inner@[b]).connect_id) by {
                        assert(id_text(before[a].connect_id) != id_text(before[b].connect_id));
                    }
                }
            },
            None => {
                inner.push(connection);
                proof {
                    assert forall|a: int, b: int|
                        0 <= a < inner@.len() && 0 <= b < inner@.len() && a != b implies id_text(
                        (#[trigger] inner@[a]).connect_id,
                    ) != id_text((#[trigger] inner@[b]).connect_id) by {
                        if a < before.len() && b < before.len() {
                            assert(id_text(before[a].connect_id) != id_text(
                                before[b].connect_id,
                            ));
                        }
                    }
                }
            },
        }
        *self = RTCPManager { inner };
        Ok(())
    }

    /// Takes the connection with the id `connect_id` out of the table, if
    /// there is one. No id at all is refused.
    pub fn remove_connection(&mut self, connect_id: ConnectId) -> (r: Result<(), ManageError>)
        ensures
            match connect_id {
                None => r == Err::<(), ManageError>(ManageError::NoConnectId) && final(self)@
                    == old(self)@,
                Some(id) => r == Ok::<(), ManageError>(()) && final(self)@ == match slot(
                    old(self)@,
                    id@,
                ) {
                    Some(i) => old(self)@.remove(i),
                    None => old(self)@,
                },
            },
    {
        proof {
            use_type_invariant(&*self);
        }
        match self.check_connect_id(&connect_id) {
            Err(e) => {
                return Err(e);
            },
            Ok(_) => {},
        }
        let found = match &connect_id {
            Some(id) => self.find(id.as_str()),
            None => None,
        };
        match found {
            Some(i) => {
                let mut taken = RTCPManager::new();
                core::mem::swap(self, &mut taken);
                let mut inner = taken.inner;
                let ghost before = inner@;
                let _ = inner.remove(i);
                proof {
                    assert forall|a: int, b: int|
                        0 <= a < inner@.len() && 0 <= b < inner@.len() && a != b implies id_text(
                        (#[trigger] inner@[a]).connect_id,
                    ) != id_text((#[trigger] inner@[b]).connect_id) by {
                        let a0 = if a < i { a } else { a + 1 };
                        let b0 = if b < i { b } else { b + 1 };
                        assert(id_text(before[a0].connect_id) != id_text(before[b0].connect_id));
                    }
                    assert forall|a: int| 0 <= a < inner@.len() implies (
                    #[trigger] inner@[a]).connect_id is Some by {
                        let a0 = if a < i { a } else { a + 1 };
                        assert(before[a0].connect_id is Some);
                    }
                }
                *self = RTCPManager { inner };
            },
            None => {},
        }
        Ok(())
    }

    /// The connection with the id `connect_id`. No id at all is refused.
    pub fn get_connection(&self, connect_id: &ConnectId) -> (r: Result<
        Option<&RTCPConnection<S>>,
        ManageError,
    >)
        ensures
            match *connect_id {
                None => r matches Err(e) && e == ManageError::NoConnectId,
                Some(id) => match slot(self@, id@) {
                    Some(i) => r matches Ok(Some(c)) && *c == self@[i],
                    None => r matches Ok(None),
                },
            },
    {
        match self.check_connect_id(connect_id) {
            Err(e) => {
                return Err(e);
            },
            Ok(_) => {},
        }
        match connect_id {
            Some(id) => match self.find(id.as_str()) {
                Some(i) => Ok(Some(&self.inner[i])),
                None => Ok(None),
            },
            None => Ok(None),
        }
    }

    /// The number of connections in the table.
    pub fn len(&self) -> (n: usize)
        ensures
            n == self@.len(),
    {
        self.inner.len()
    }
}

} // verus!
