//! Delivery: putting one frame into the outbound queues of a set of
//! connections, each on its own, so that a full queue costs only its owner.

use crate::registry::{DeliveryFailure, Registry};
use vstd::prelude::*;
use vstd::slice::slice_to_vec;

verus! {

/// The queues after `frame` was delivered to the connections `to`. A
/// recipient whose queue has room gets the frame at its end. A recipient whose
/// queue holds `limit` frames or more is dropped. Everybody else stays as they
/// were; an id in `to` that is not registered is passed over.
pub open spec fn delivered(
    q: Map<u64, Seq<Seq<u8>>>,
    to: Set<u64>,
    frame: Seq<u8>,
    limit: nat,
) -> Map<u64, Seq<Seq<u8>>> {
    Map::new(
        |id: u64| q.dom().contains(id) && !(to.contains(id) && q[id].len() >= limit),
        |id: u64|
            if to.contains(id) {
                q[id].push(frame)
            } else {
                q[id]
            },
    )
}

/// The recipients among `to` that get the frame.
pub open spec fn reached(q: Map<u64, Seq<Seq<u8>>>, to: Set<u64>, limit: nat) -> Set<u64> {
    Set::new(|id: u64| to.contains(id) && q.dom().contains(id) && q[id].len() < limit)
}

/// The recipients among `to` that are dropped because their queue is full.
pub open spec fn overrun(q: Map<u64, Seq<Seq<u8>>>, to: Set<u64>, limit: nat) -> Set<u64> {
    Set::new(|id: u64| to.contains(id) && q.dom().contains(id) && q[id].len() >= limit)
}

/// The ids among the first `k` of `v`, but for `except`.
pub open spec fn taken(v: Seq<u64>, k: int, except: Option<u64>) -> Set<u64> {
    Set::new(|id: u64| except != Some(id) && exists|j: int| 0 <= j < k && v[j] == id)
}

/// The ids of `v`, but for `except`.
pub open spec fn targets(v: Seq<u64>, except: Option<u64>) -> Set<u64> {
    taken(v, v.len() as int, except)
}

/// Delivering to one more connection is delivering to the larger set.
pub proof fn lemma_delivered_step(
    q: Map<u64, Seq<Seq<u8>>>,
    done: Set<u64>,
    t: u64,
    frame: Seq<u8>,
    limit: nat,
)
    requires
        !done.contains(t),
    ensures
        delivered(delivered(q, done, frame, limit), set![t], frame, limit) == delivered(
            q,
            done.insert(t),
            frame,
            limit,
        ),
{
    assert(delivered(delivered(q, done, frame, limit), set![t], frame, limit) =~= delivered(
        q,
        done.insert(t),
        frame,
        limit,
    ));
}

/// What came of a delivery: who got the frame, and who was dropped over a
/// full queue.
#[derive(Debug)]
pub struct Delivery {
    pub queued: Vec<u64>,
    pub dropped: Vec<u64>,
}

/// Delivers `frame` to the connection `id`. A connection whose queue is full
/// is removed from the registry.
pub fn deliver(registry: &mut Registry, id: u64, frame: Vec<u8>) -> (r: Result<
    (),
    DeliveryFailure,
>)
    requires
        old(registry).wf(),
    ensures
        final(registry).wf(),
        final(registry).capacity() == old(registry).capacity(),
        final(registry).queue_limit() == old(registry).queue_limit(),
        final(registry).next_id() == old(registry).next_id(),
        final(registry)@ == delivered(
            old(registry)@,
            set![id],
            frame@,
            old(registry).queue_limit() as nat,
        ),
        match r {
            Ok(_) => old(registry)@.dom().contains(id) && old(registry)@[id].len() < old(
                registry,
            ).queue_limit(),
            Err(DeliveryFailure::NotRegistered) => !old(registry)@.dom().contains(id),
            Err(DeliveryFailure::QueueFull) => old(registry)@.dom().contains(id) && old(
                registry,
            )@[id].len() >= old(registry).queue_limit(),
        },
        final(registry)@.dom().len() == old(registry)@.dom().len() - (if r == Err::<
            (),
            DeliveryFailure,
        >(DeliveryFailure::QueueFull) {
            1int
        } else {
            0int
        }),
{
    proof {
        registry.lemma_wf();
    }
    let ghost before = registry@;
    let ghost goal = delivered(
        registry@,
        set![id],
        frame@,
        registry.queue_limit() as nat,
    );
    let r = registry.enqueue(id, frame);
    match r {
        Ok(_) => {
            assert(registry@ =~= goal);
            assert(registry@.dom() =~= before.dom());
        },
        Err(DeliveryFailure::QueueFull) => {
            registry.unregister(id);
            assert(registry@ =~= goal);
        },
        Err(DeliveryFailure::NotRegistered) => {
            assert(registry@ =~= goal);
        },
    }
    r
}

/// Whether `id` stands among the first `k` of `v`.
fn seen(v: &Vec<u64>, k: usize, id: u64) -> (r: bool)
    requires
        k <= v.len(),
    ensures
        r == exists|j: int| 0 <= j < k && v@[j] == id,
{
    let mut j: usize = 0;
    while j < k
        invariant
            j <= k <= v.len(),
            forall|i: int| 0 <= i < j ==> v@[i] != id,
        decreases k - j,
    {
        if v[j] == id {
            return true;
        }
        j = j + 1;
    }
    false
}

/// Delivers `frame` once to each connection that `to` lists, but for
/// `except`. `rising` says that the ids of `to` rise, so that none comes
/// twice; where it is not set, repetitions are looked for.
#[verifier::rlimit(40)]
pub fn fan_out(
    registry: &mut Registry,
    to: &Vec<u64>,
    except: Option<u64>,
    rising: bool,
    frame: &[u8],
) -> (r: Delivery)
    requires
        old(registry).wf(),
        rising ==> forall|i: int, j: int| 0 <= i < j < to@.len() ==> to@[i] < to@[j],
    ensures
        final(registry).wf(),
        final(registry).capacity() == old(registry).capacity(),
        final(registry).queue_limit() == old(registry).queue_limit(),
        final(registry).next_id() == old(registry).next_id(),
        final(registry)@ == delivered(
            old(registry)@,
            targets(to@, except),
            frame@,
            old(registry).queue_limit() as nat,
        ),
        r.queued@.to_set() == reached(
            old(registry)@,
            targets(to@, except),
            old(registry).queue_limit() as nat,
        ),
        r.dropped@.to_set() == overrun(
            old(registry)@,
            targets(to@, except),
            old(registry).queue_limit() as nat,
        ),
        r.queued@.no_duplicates(),
        r.dropped@.no_duplicates(),
        final(registry)@.dom().len() == old(registry)@.dom().len() - r.dropped@.len(),
{
    let ghost q = registry@;
    let ghost limit = registry.queue_limit() as nat;
    let mut queued: Vec<u64> = Vec::new();
    let mut dropped: Vec<u64> = Vec::new();
    let mut k: usize = 0;
    assert(registry@ =~= delivered(q, taken(to@, 0, except), frame@, limit));
    assert(queued@.to_set() =~= reached(q, taken(to@, 0, except), limit));
    assert(dropped@.to_set() =~= overrun(q, taken(to@, 0, except), limit));
    while k < to.len()
        invariant
            k <= to.len(),
            registry.wf(),
            registry.capacity() == old(registry).capacity(),
            registry.queue_limit() == old(registry).queue_limit(),
            registry.next_id() == old(registry).next_id(),
            q == old(registry)@,
            limit == old(registry).queue_limit() as nat,
            rising ==> forall|i: int, j: int| 0 <= i < j < to@.len() ==> to@[i] < to@[j],
            registry@ == delivered(q, taken(to@, k as int, except), frame@, limit),
            queued@.to_set() == reached(q, taken(to@, k as int, except), limit),
            dropped@.to_set() == overrun(q, taken(to@, k as int, except), limit),
            queued@.no_duplicates(),
            dropped@.no_duplicates(),
            registry@.dom().len() == q.dom().len() - dropped@.len(),
        decreases to.len() - k,
    {
        let id: u64 = to[k];
        let ghost done = taken(to@, k as int, except);
        let ghost was_queued = queued@;
        let ghost was_dropped = dropped@;
        let skip: bool = match except {
            Some(e) => e == id,
            None => false,
        };
        let repeated: bool = if skip || rising {
            false
        } else {
            seen(to, k, id)
        };
        if skip || repeated {
            assert(taken(to@, k + 1, except) =~= done);
        } else {
            assert(!done.contains(id));
            assert(taken(to@, k + 1, except) =~= done.insert(id));
            proof {
                lemma_delivered_step(q, done, id, frame@, limit);
            }
            match deliver(registry, id, slice_to_vec(frame)) {
                Ok(_) => {
                    assert(!was_queued.to_set().contains(id));
                    queued.push(id);
                    assert(queued@.to_set() =~= was_queued.to_set().insert(id)) by {
                        assert(queued@[was_queued.len() as int] == id);
                        assert forall|x: u64| was_queued.contains(x) implies queued@.contains(
                            x,
                        ) by {
                            let n = choose|n: int| 0 <= n < was_queued.len() && was_queued[n] == x;
                            assert(queued@[n] == x);
                        }
                    }
                    assert(was_queued.to_set().insert(id) =~= reached(q, done.insert(id), limit));
                    assert(overrun(q, done.insert(id), limit) =~= overrun(q, done, limit));
                },
                Err(DeliveryFailure::QueueFull) => {
                    assert(!was_dropped.to_set().contains(id));
                    dropped.push(id);
                    assert(dropped@.to_set() =~= was_dropped.to_set().insert(id)) by {
                        assert(dropped@[was_dropped.len() as int] == id);
                        assert forall|x: u64| was_dropped.contains(x) implies dropped@.contains(
                            x,
                        ) by {
                            let n = choose|n: int|
                                0 <= n < was_dropped.len() && was_dropped[n] == x;
                            assert(dropped@[n] == x);
                        }
                    }
                    assert(was_dropped.to_set().insert(id) =~= overrun(q, done.insert(id), limit));
                    assert(reached(q, done.insert(id), limit) =~= reached(q, done, limit));
                },
                Err(DeliveryFailure::NotRegistered) => {
                    assert(reached(q, done.insert(id), limit) =~= reached(q, done, limit));
                    assert(overrun(q, done.insert(id), limit) =~= overrun(q, done, limit));
                },
            }
        }
        k = k + 1;
    }
    Delivery { queued, dropped }
}

} // verus!
