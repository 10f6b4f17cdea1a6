//! The connection registry: who is connected, and which frames wait for
//! each of them.

use std::collections::VecDeque;
use vstd::prelude::*;

verus! {

/// The frames of a queue, each as its bytes.
pub open spec fn frames(q: Seq<Vec<u8>>) -> Seq<Seq<u8>> {
    q.map_values(|f: Vec<u8>| f@)
}

/// A connected client: its id and its outbound queue, the frames that wait to
/// be written to it, oldest first.
#[derive(Debug)]
pub struct ClientConnection {
    pub id: u64,
    pub outbound: VecDeque<Vec<u8>>,
}

impl ClientConnection {
    /// The frames that wait for the connection, oldest first, each as its bytes.
    pub open spec fn queue(&self) -> Seq<Seq<u8>> {
        frames(self.outbound@)
    }
}

/// Why a connection was not registered.
#[derive(Clone, Copy, Debug, PartialEq, Eq, Structural)]
pub enum RegistryError {
    /// The registry holds as many connections as it may, or has no id left.
    CapacityExceeded,
}

/// Why a frame was not queued.
#[derive(Clone, Copy, Debug, PartialEq, Eq, Structural)]
pub enum DeliveryFailure {
    /// No connection has the id.
    NotRegistered,
    /// The connection's outbound queue is full.
    QueueFull,
}

/// Whether one of the connections has the id.
pub open spec fn listed(conns: Seq<ClientConnection>, id: u64) -> bool {
    exists|k: int| 0 <= k < conns.len() && (#[trigger] conns[k]).id == id
}

/// Where the connection that has the id stands.
pub open spec fn slot(conns: Seq<ClientConnection>, id: u64) -> int {
    choose|k: int| 0 <= k < conns.len() && (#[trigger] conns[k]).id == id
}

/// Ids rise along the sequence.
pub open spec fn rising(conns: Seq<ClientConnection>) -> bool {
    forall|i: int, j: int|
        0 <= i < j < conns.len() ==> (#[trigger] conns[i]).id < (#[trigger] conns[j]).id
}

/// The queue of each connection, by its id.
pub open spec fn queues(conns: Seq<ClientConnection>) -> Map<u64, Seq<Seq<u8>>> {
    Map::new(|id: u64| listed(conns, id), |id: u64| conns[slot(conns, id)].queue())
}

/// Where ids rise, each connection is found under its id, with its queue.
pub proof fn lemma_queues_at(conns: Seq<ClientConnection>, k: int)
    requires
        rising(conns),
        0 <= k < conns.len(),
    ensures
        queues(conns).dom().contains(conns[k].id),
        queues(conns)[conns[k].id] == conns[k].queue(),
        slot(conns, conns[k].id) == k,
{
    let id = conns[k].id;
    assert(listed(conns, id));
    let j = slot(conns, id);
    assert(0 <= j < conns.len() && conns[j].id == id);
    if j < k {
        assert(conns[j].id < conns[k].id);
    } else if k < j {
        assert(conns[k].id < conns[j].id);
    }
}

/// What changing one connection's queue does to the queues by id.
pub proof fn lemma_queues_update(
    before: Seq<ClientConnection>,
    after: Seq<ClientConnection>,
    k: int,
)
    requires
        rising(before),
        0 <= k < before.len(),
        after.len() == before.len(),
        after[k].id == before[k].id,
        forall|n: int| 0 <= n < before.len() && n != k ==> after[n] == before[n],
    ensures
        rising(after),
        queues(after) == queues(before).insert(before[k].id, after[k].queue()),
{
    assert forall|i: int, j: int| 0 <= i < j < after.len() implies (#[trigger] after[i]).id < (
    #[trigger] after[j]).id by {
        assert(before[i].id < before[j].id);
    }
    lemma_queues_at(after, k);
    assert forall|x: u64| listed(after, x) <==> listed(before, x) by {
        if listed(after, x) {
            let n = slot(after, x);
            assert(before[n].id == x);
        }
        if listed(before, x) {
            let n = slot(before, x);
            assert(after[n].id == x);
        }
    }
    assert forall|x: u64| listed(before, x) && x != before[k].id implies queues(after)[x]
        == queues(before)[x] by {
        let n = slot(before, x);
        assert(after[n] == before[n]);
        lemma_queues_at(after, n);
    }
    assert(queues(after) =~= queues(before).insert(before[k].id, after[k].queue()));
}

/// The registry of live connections. Ids are handed out in rising order,
/// starting at 1, and never twice.
pub struct Registry {
    connections: Vec<ClientConnection>,
    next_id: u64,
    capacity: usize,
    queue_limit: usize,
}

impl View for Registry {
    type V = Map<u64, Seq<Seq<u8>>>;

    /// The outbound queue of each registered connection, by its id.
    closed spec fn view(&self) -> Map<u64, Seq<Seq<u8>>> {
        queues(self.connections@)
    }
}

impl Registry {
    /// The registered ids, in the order of registration.
    spec fn ids(&self) -> Seq<u64> {
        self.connections@.map_values(|c: ClientConnection| c.id)
    }

    /// The id that the next registration gets.
    pub closed spec fn next_id(&self) -> u64 {
        self.next_id
    }

    /// The most connections that the registry holds at a time.
    pub closed spec fn capacity(&self) -> usize {
        self.capacity
    }

    /// The most frames that wait for one connection at a time.
    pub closed spec fn queue_limit(&self) -> usize {
        self.queue_limit
    }

    /// The registry's invariant: ids rise in the order of registration, each
    /// is at least 1 and below the next id, and no limit is exceeded.
    pub closed spec fn wf(&self) -> bool {
        &&& rising(self.connections@)
        &&& self.next_id >= 1
        &&& forall|k: int|
            0 <= k < self.connections@.len() ==> 1 <= (#[trigger] self.connections@[k]).id
                < self.next_id
        &&& forall|k: int|
            0 <= k < self.connections@.len() ==> (#[trigger] self.connections@[k]).outbound@.len()
                <= self.queue_limit
        &&& self.connections@.len() <= self.capacity
    }

    /// What the invariant says of the ids in their order: they rise, they are
    /// the registered ones, and there are as many as connections.
    proof fn lemma_ids(&self)
        requires
            self.wf(),
        ensures
            forall|i: int, j: int|
                0 <= i < j < self.ids().len() ==> self.ids()[i] < self.ids()[j],
            forall|id: u64| self.ids().contains(id) <==> self@.dom().contains(id),
            self@.dom().finite(),
            self@.dom().len() == self.connections@.len(),
            self.ids().len() == self.connections@.len(),
    {
        let conns = self.connections@;
        let ids = self.ids();
        assert forall|i: int, j: int| 0 <= i < j < ids.len() implies ids[i] < ids[j] by {
            assert(conns[i].id < conns[j].id);
        }
        assert forall|id: u64| ids.contains(id) <==> self@.dom().contains(id) by {
            if ids.contains(id) {
                let k = choose|k: int| 0 <= k < ids.len() && ids[k] == id;
                assert(conns[k].id == id);
            }
            if self@.dom().contains(id) {
                let k = slot(conns, id);
                assert(ids[k] == id);
            }
        }
        assert(ids.to_set() =~= self@.dom());
        assert(ids.no_duplicates());
        ids.unique_seq_to_set();
        vstd::seq_lib::seq_to_set_is_finite(ids);
    }

    /// What the invariant says of the view: the registered connections are
    /// at most `capacity`, each has an id from 1 up to, not including, the
    /// next id, and at most `queue_limit` frames wait for each.
    pub proof fn lemma_wf(&self)
        requires
            self.wf(),
        ensures
            self@.dom().finite(),
            self@.dom().len() <= self.capacity(),
            self.next_id() >= 1,
            forall|id: u64| #[trigger]
                self@.dom().contains(id) ==> 1 <= id < self.next_id() && self@[id].len()
                    <= self.queue_limit(),
    {
        let conns = self.connections@;
        self.lemma_ids();
        assert forall|id: u64| #[trigger] self@.dom().contains(id) implies 1 <= id
            < self.next_id() && self@[id].len() <= self.queue_limit() by {
            let k = slot(conns, id);
            assert(conns[k].id == id);
        }
    }

    /// An empty registry for at most `capacity` connections, each with room
    /// for `queue_limit` waiting frames.
    pub fn new(capacity: usize, queue_limit: usize) -> (r: Registry)
        ensures
            r.wf(),
            r@ == Map::<u64, Seq<Seq<u8>>>::empty(),
            r.next_id() == 1,
            r.capacity() == capacity,
            r.queue_limit() == queue_limit,
    {
        let r = Registry { connections: Vec::new(), next_id: 1, capacity, queue_limit };
        assert(r@ =~= Map::<u64, Seq<Seq<u8>>>::empty());
        r
    }

    /// How many connections are registered.
    pub fn len(&self) -> (r: usize)
        requires
            self.wf(),
        ensures
            r == self@.dom().len(),
    {
        proof {
            self.lemma_ids();
        }
        self.connections.len()
    }

    /// Where the connection `id` stands, by bisection.
    fn position(&self, id: u64) -> (r: Option<usize>)
        requires
            self.wf(),
        ensures
            match r {
                Some(k) => k < self.connections@.len() && self.connections@[k as int].id == id,
                None => !listed(self.connections@, id),
            },
    {
        let mut lo: usize = 0;
        let mut hi: usize = self.connections.len();
        while lo < hi
            invariant
                lo <= hi <= self.connections@.len(),
                rising(self.connections@),
                forall|k: int| 0 <= k < lo ==> (#[trigger] self.connections@[k]).id < id,
                forall|k: int|
                    hi <= k < self.connections@.len() ==> (#[trigger] self.connections@[k]).id
                        > id,
            decreases hi - lo,
        {
            let mid: usize = lo + (hi - lo) / 2;
            let found: u64 = self.connections[mid].id;
            if found == id {
                return Some(mid);
            } else if found < id {
                assert forall|k: int| 0 <= k < mid + 1 implies (#[trigger] self.connections@[k]).id
                    < id by {
                    if k < mid {
                        assert(self.connections@[k].id < self.connections@[mid as int].id);
                    }
                }
                lo = mid + 1;
            } else {
                assert forall|k: int| mid <= k < self.connections@.len() implies (
                #[trigger] self.connections@[k]).id > id by {
                    if mid < k {
                        assert(self.connections@[mid as int].id < self.connections@[k].id);
                    }
                }
                hi = mid;
            }
        }
        None
    }

    /// Whether `id` is registered.
    pub fn contains(&self, id: u64) -> (r: bool)
        requires
            self.wf(),
        ensures
            r == self@.dom().contains(id),
    {
        self.position(id).is_some()
    }

    /// Registers a new connection with an empty outbound queue and gives its
    /// id. Fails where the registry is full or has run out of ids.
    pub fn register(&mut self) -> (r: Result<u64, RegistryError>)
        requires
            old(self).wf(),
        ensures
            final(self).wf(),
            final(self).capacity() == old(self).capacity(),
            final(self).queue_limit() == old(self).queue_limit(),
            match r {
                Ok(id) => {
                    &&& old(self)@.dom().len() < old(self).capacity()
                    &&& old(self).next_id() < u64::MAX
                    &&& id == old(self).next_id()
                    &&& !old(self)@.dom().contains(id)
                    &&& final(self).next_id() == id + 1
                    &&& final(self)@ == old(self)@.insert(id, Seq::empty())
                },
                Err(e) => {
                    &&& e == RegistryError::CapacityExceeded
                    &&& old(self)@.dom().len() >= old(self).capacity() || old(self).next_id()
                        == u64::MAX
                    &&& *final(self) == *old(self)
                },
            },
    {
        proof {
            self.lemma_ids();
        }
        if self.connections.len() >= self.capacity || self.next_id == u64::MAX {
            return Err(RegistryError::CapacityExceeded);
        }
        let id: u64 = self.next_id;
        let ghost before = self.connections@;
        let conn = ClientConnection { id, outbound: VecDeque::new() };
        assert(conn.queue() =~= Seq::<Seq<u8>>::empty());
        self.connections.push(conn);
        self.next_id = id + 1;
        proof {
            let after = self.connections@;
            assert(!listed(before, id));
            assert(rising(after));
            assert(queues(after) =~= queues(before).insert(id, Seq::empty())) by {
                lemma_queues_at(after, before.len() as int);
                assert forall|x: u64| listed(after, x) <==> (listed(before, x) || x == id) by {
                    if listed(after, x) {
                        let k = slot(after, x);
                        if k < before.len() {
                            assert(before[k].id == x);
                        }
                    }
                    if listed(before, x) {
                        let k = slot(before, x);
                        assert(after[k].id == x);
                    }
                }
                assert forall|x: u64| listed(before, x) implies queues(after)[x] == queues(
                    before,
                )[x] by {
                    let k = slot(before, x);
                    assert(after[k] == before[k]);
                    lemma_queues_at(after, k);
                }
            }
        }
        Ok(id)
    }

    /// Removes the connection `id` and what waits for it. Does nothing where
    /// `id` is not registered. Says whether it was.
    pub fn unregister(&mut self, id: u64) -> (r: bool)
        requires
            old(self).wf(),
        ensures
            final(self).wf(),
            final(self).capacity() == old(self).capacity(),
            final(self).queue_limit() == old(self).queue_limit(),
            final(self).next_id() == old(self).next_id(),
            r == old(self)@.dom().contains(id),
            final(self)@ == old(self)@.remove(id),
            !r ==> *final(self) == *old(self),
    {
        match self.position(id) {
            None => {
                assert(self@ =~= self@.remove(id));
                false
            },
            Some(k) => {
                let ghost before = self.connections@;
                self.connections.remove(k);
                proof {
                    let after = self.connections@;
                    assert(after =~= before.remove(k as int));
                    assert forall|i: int, j: int| 0 <= i < j < after.len() implies (
                    #[trigger] after[i]).id < (#[trigger] after[j]).id by {
                        let a = if i < k { i } else { i + 1 };
                        let b = if j < k { j } else { j + 1 };
                        assert(before[a].id < before[b].id);
                    }
                    assert forall|n: int| 0 <= n < after.len() implies 1 <= (#[trigger] after[n]).id
                        < self.next_id && after[n].outbound@.len() <= self.queue_limit by {
                        let a = if n < k { n } else { n + 1 };
                        assert(after[n] == before[a]);
                    }
                    lemma_queues_at(before, k as int);
                    assert(queues(after) =~= queues(before).remove(id)) by {
                        assert forall|x: u64| listed(after, x) <==> (listed(before, x) && x != id) by {
                            if listed(after, x) {
                                let n = slot(after, x);
                                let a = if n < k { n } else { n + 1 };
                                assert(before[a].id == x);
                                lemma_queues_at(before, a);
                            }
                            if listed(before, x) && x != id {
                                let a = slot(before, x);
                                let n = if a < k { a } else { a - 1 };
                                assert(after[n].id == x);
                            }
                        }
                        assert forall|x: u64| listed(after, x) implies queues(after)[x] == queues(
                            before,
                        )[x] by {
                            let n = slot(after, x);
                            let a = if n < k { n } else { n + 1 };
                            assert(after[n] == before[a]);
                            lemma_queues_at(before, a);
                        }
                    }
                }
                true
            },
        }
    }

    /// The connection `id`, if it is registered.
    pub fn lookup(&self, id: u64) -> (r: Option<&ClientConnection>)
        requires
            self.wf(),
        ensures
            match r {
                Some(c) => self@.dom().contains(id) && c.id == id && c.queue() == self@[id],
                None => !self@.dom().contains(id),
            },
    {
        match self.position(id) {
            None => None,
            Some(k) => {
                proof {
                    lemma_queues_at(self.connections@, k as int);
                }
                Some(&self.connections[k])
            },
        }
    }

    /// How many frames wait for the connection `id`.
    pub fn pending(&self, id: u64) -> (r: Option<usize>)
        requires
            self.wf(),
        ensures
            match r {
                Some(n) => self@.dom().contains(id) && n == self@[id].len(),
                None => !self@.dom().contains(id),
            },
    {
        match self.lookup(id) {
            None => None,
            Some(c) => Some(c.outbound.len()),
        }
    }

    /// Puts `frame` at the end of the outbound queue of `id`. Fails, and
    /// changes nothing, where `id` is not registered or its queue is full.
    pub fn enqueue(&mut self, id: u64, frame: Vec<u8>) -> (r: Result<(), DeliveryFailure>)
        requires
            old(self).wf(),
        ensures
            final(self).wf(),
            final(self).capacity() == old(self).capacity(),
            final(self).queue_limit() == old(self).queue_limit(),
            final(self).next_id() == old(self).next_id(),
            match r {
                Ok(_) => {
                    &&& old(self)@.dom().contains(id)
                    &&& old(self)@[id].len() < old(self).queue_limit()
                    &&& final(self)@ == old(self)@.insert(id, old(self)@[id].push(frame@))
                },
                Err(DeliveryFailure::NotRegistered) => {
                    &&& !old(self)@.dom().contains(id)
                    &&& *final(self) == *old(self)
                },
                Err(DeliveryFailure::QueueFull) => {
                    &&& old(self)@.dom().contains(id)
                    &&& old(self)@[id].len() >= old(self).queue_limit()
                    &&& *final(self) == *old(self)
                },
            },
    {
        let k: usize = match self.position(id) {
            None => {
                return Err(DeliveryFailure::NotRegistered);
            },
            Some(k) => k,
        };
        proof {
            lemma_queues_at(self.connections@, k as int);
        }
        if self.connections[k].outbound.len() >= self.queue_limit {
            return Err(DeliveryFailure::QueueFull);
        }
        let ghost before = self.connections@;
        self.connections[k].outbound.push_back(frame);
        proof {
            let after = self.connections@;
            assert(after[k as int].queue() =~= before[k as int].queue().push(frame@));
            lemma_queues_update(before, after, k as int);
        }
        Ok(())
    }

    /// Takes the oldest frame that waits for `id` out of its queue. Gives
    /// nothing, and changes nothing, where `id` is not registered or nothing
    /// waits for it.
    pub fn dequeue(&mut self, id: u64) -> (r: Option<Vec<u8>>)
        requires
            old(self).wf(),
        ensures
            final(self).wf(),
            final(self).capacity() == old(self).capacity(),
            final(self).queue_limit() == old(self).queue_limit(),
            final(self).next_id() == old(self).next_id(),
            match r {
                Some(frame) => {
                    &&& old(self)@.dom().contains(id)
                    &&& old(self)@[id].len() > 0
                    &&& frame@ == old(self)@[id][0]
                    &&& final(self)@ == old(self)@.insert(id, old(self)@[id].drop_first())
                },
                None => {
                    &&& !old(self)@.dom().contains(id) || old(self)@[id].len() == 0
                    &&& *final(self) == *old(self)
                },
            },
    {
        let k: usize = match self.position(id) {
            None => {
                return None;
            },
            Some(k) => k,
        };
        proof {
            lemma_queues_at(self.connections@, k as int);
        }
        if self.connections[k].outbound.len() == 0 {
            return None;
        }
        let ghost before = self.connections@;
        let frame: Option<Vec<u8>> = self.connections[k].outbound.pop_front();
        proof {
            let after = self.connections@;
            assert(after[k as int].outbound@ == before[k as int].outbound@.subrange(
                1,
                before[k as int].outbound@.len() as int,
            ));
            assert(after[k as int].queue() =~= before[k as int].queue().drop_first());
            lemma_queues_update(before, after, k as int);
            assert(frame->0@ == before[k as int].queue()[0]);
        }
        frame
    }

    /// The ids of all registered connections, in the order of registration,
    /// which is their rising order. A connection's id is the handle by which
    /// its outbound queue is reached.
    pub fn snapshot(&self) -> (r: Vec<u64>)
        requires
            self.wf(),
        ensures
            forall|i: int, j: int| 0 <= i < j < r@.len() ==> r@[i] < r@[j],
            forall|id: u64| r@.contains(id) <==> self@.dom().contains(id),
            r@.len() == self@.dom().len(),
    {
        let mut out: Vec<u64> = Vec::new();
        let mut k: usize = 0;
        while k < self.connections.len()
            invariant
                k <= self.connections@.len(),
                out@ == self.ids().subrange(0, k as int),
            decreases self.connections@.len() - k,
        {
            out.push(self.connections[k].id);
            assert(out@ =~= self.ids().subrange(0, k + 1));
            k = k + 1;
        }
        assert(out@ =~= self.ids());
        proof {
            self.lemma_ids();
        }
        out
    }
}

} // verus!
