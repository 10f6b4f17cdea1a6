//! The bus: it registers connections, takes each frame that one of them
//! sends, and queues what the others are to get.

use crate::config::Config;
use crate::envelope::{envelope, malformed_notice, oversize_notice, Envelope, MALFORMED_NOTICE,
    OVERSIZE_NOTICE};
use crate::fanout::{delivered, fan_out, overrun, reached, targets, Delivery};
use crate::registry::{Registry, RegistryError};
use vstd::prelude::*;

verus! {

/// How many connections a bus holds where nothing else is asked for.
pub const DEFAULT_CAPACITY: usize = 1024;

/// How many frames wait for one connection where nothing else is asked for.
pub const DEFAULT_QUEUE_LIMIT: usize = 256;

/// Why a frame was not relayed.
#[derive(Clone, Copy, Debug, PartialEq, Eq, Structural)]
pub enum BusError {
    /// The frame is larger than the bus accepts.
    OversizeMessage,
    /// The frame holds no envelope.
    MalformedEnvelope,
    /// The sender is not registered, or no longer.
    ConnectionLost,
}

/// What came of a frame.
#[derive(Debug)]
pub struct Outcome {
    /// `None` where the frame was relayed.
    pub error: Option<BusError>,
    /// Into whose queue something was put, and who was dropped.
    pub delivery: Delivery,
}

/// The most bytes of a frame, for a limit given in units of 1024 bytes.
pub open spec fn frame_limit(max_msg_size: u32) -> nat {
    (max_msg_size * 1024) as nat
}

/// Why the bus does not relay `frame`, sent by `src`; `None` where it does.
/// Size is judged first, by the frame alone, and an oversize frame is never
/// read. A frame of a sender that is not registered is not read either.
pub open spec fn judged(
    registered: Set<u64>,
    max_bytes: nat,
    src: u64,
    frame: Seq<u8>,
) -> Option<BusError> {
    if frame.len() > max_bytes {
        Some(BusError::OversizeMessage)
    } else if !registered.contains(src) {
        Some(BusError::ConnectionLost)
    } else if envelope(frame) is None {
        Some(BusError::MalformedEnvelope)
    } else {
        None
    }
}

/// Who an accepted envelope is for: the ids of its destination where it names
/// any, the sender among them if it is listed; else everybody but the sender.
pub open spec fn recipients(registered: Set<u64>, src: u64, destination: Seq<u64>) -> Set<u64> {
    if destination.len() > 0 {
        destination.to_set()
    } else {
        registered.remove(src)
    }
}

/// Into whose queue the bus puts something for `frame`: the recipients of an
/// envelope, the sender alone for a frame that is refused, nobody for a frame
/// that is not read because its sender is not registered.
pub open spec fn addressees(
    registered: Set<u64>,
    max_bytes: nat,
    src: u64,
    frame: Seq<u8>,
) -> Set<u64> {
    match judged(registered, max_bytes, src, frame) {
        Some(BusError::ConnectionLost) => Set::empty(),
        Some(_) => set![src],
        None => recipients(registered, src, envelope(frame)->0.destination),
    }
}

/// What the bus puts into those queues: the envelope's payload, or the notice
/// that says why the frame was refused.
pub open spec fn outgoing(max_bytes: nat, frame: Seq<u8>) -> Seq<u8> {
    if frame.len() > max_bytes {
        oversize_notice()
    } else {
        match envelope(frame) {
            None => malformed_notice(),
            Some(e) => e.payload,
        }
    }
}

/// The queues after the bus handled `frame` from `src`.
pub open spec fn relayed(
    q: Map<u64, Seq<Seq<u8>>>,
    limit: nat,
    max_bytes: nat,
    src: u64,
    frame: Seq<u8>,
) -> Map<u64, Seq<Seq<u8>>> {
    delivered(q, addressees(q.dom(), max_bytes, src, frame), outgoing(max_bytes, frame), limit)
}

/// A message bus.
pub struct MessageBus {
    config: Config,
    registry: Registry,
}

impl View for MessageBus {
    type V = Map<u64, Seq<Seq<u8>>>;

    /// The outbound queue of each registered connection, by its id.
    closed spec fn view(&self) -> Map<u64, Seq<Seq<u8>>> {
        self.registry@
    }
}

impl MessageBus {
    /// The bus's invariant: that of its registry.
    pub closed spec fn wf(&self) -> bool {
        self.registry.wf()
    }

    /// The settings that the bus was made with.
    pub closed spec fn settings(&self) -> Config {
        self.config
    }

    /// The connections of the bus.
    pub closed spec fn connections(&self) -> Registry {
        self.registry
    }

    /// The most bytes of a frame that the bus relays.
    pub open spec fn max_frame_bytes(&self) -> nat {
        frame_limit(self.settings().max_msg_size)
    }

    /// The most frames that wait for one connection.
    pub open spec fn queue_limit(&self) -> nat {
        self.connections().queue_limit() as nat
    }

    /// A bus with the given settings, for `DEFAULT_CAPACITY` connections
    /// with `DEFAULT_QUEUE_LIMIT` waiting frames each.
    pub fn new(config: Config) -> (r: MessageBus)
        ensures
            r.wf(),
            r.settings() == config,
            r@ == Map::<u64, Seq<Seq<u8>>>::empty(),
            r.connections().next_id() == 1,
            r.connections().capacity() == DEFAULT_CAPACITY,
            r.connections().queue_limit() == DEFAULT_QUEUE_LIMIT,
    {
        MessageBus::with_limits(config, DEFAULT_CAPACITY, DEFAULT_QUEUE_LIMIT)
    }

    /// A bus with the given settings, for at most `capacity` connections
    /// with at most `queue_limit` waiting frames each.
    pub fn with_limits(config: Config, capacity: usize, queue_limit: usize) -> (r: MessageBus)
        ensures
            r.wf(),
            r.settings() == config,
            r@ == Map::<u64, Seq<Seq<u8>>>::empty(),
            r.connections().next_id() == 1,
            r.connections().capacity() == capacity,
            r.connections().queue_limit() == queue_limit,
    {
        MessageBus { config, registry: Registry::new(capacity, queue_limit) }
    }

    /// The settings that the bus was made with.
    pub fn config(&self) -> (r: &Config)
        ensures
            *r == self.settings(),
    {
        &self.config
    }

    /// The connections of the bus.
    pub fn registry(&self) -> (r: &Registry)
        ensures
            *r == self.connections(),
            r@ == self@,
            self.wf() ==> r.wf(),
    {
        &self.registry
    }

    /// Registers a connection whose handshake is done, and gives its id.
    pub fn connect(&mut self) -> (r: Result<u64, RegistryError>)
        requires
            old(self).wf(),
        ensures
            final(self).wf(),
            final(self).settings() == old(self).settings(),
            final(self).connections().capacity() == old(self).connections().capacity(),
            final(self).connections().queue_limit() == old(self).connections().queue_limit(),
            match r {
                Ok(id) => {
                    &&& old(self)@.dom().len() < old(self).connections().capacity()
                    &&& old(self).connections().next_id() < u64::MAX
                    &&& id == old(self).connections().next_id()
                    &&& !old(self)@.dom().contains(id)
                    &&& final(self).connections().next_id() == id + 1
                    &&& final(self)@ == old(self)@.insert(id, Seq::empty())
                },
                Err(e) => {
                    &&& e == RegistryError::CapacityExceeded
                    &&& old(self)@.dom().len() >= old(self).connections().capacity()
                        || old(self).connections().next_id() == u64::MAX
                    &&& final(self)@ == old(self)@
                    &&& final(self).connections() == old(self).connections()
                },
            },
    {
        self.registry.register()
    }

    /// Removes a connection that has closed, with what waits for it. Does
    /// nothing where `id` is not registered. Says whether it was.
    pub fn disconnect(&mut self, id: u64) -> (r: bool)
        requires
            old(self).wf(),
        ensures
            final(self).wf(),
            final(self).settings() == old(self).settings(),
            final(self).connections().capacity() == old(self).connections().capacity(),
            final(self).connections().queue_limit() == old(self).connections().queue_limit(),
            final(self).connections().next_id() == old(self).connections().next_id(),
            r == old(self)@.dom().contains(id),
            final(self)@ == old(self)@.remove(id),
    {
        self.registry.unregister(id)
    }

    /// Takes the oldest frame that waits for `id`, to be written to its
    /// socket.
    pub fn next_outbound(&mut self, id: u64) -> (r: Option<Vec<u8>>)
        requires
            old(self).wf(),
        ensures
            final(self).wf(),
            final(self).settings() == old(self).settings(),
            final(self).connections().capacity() == old(self).connections().capacity(),
            final(self).connections().queue_limit() == old(self).connections().queue_limit(),
            final(self).connections().next_id() == old(self).connections().next_id(),
            match r {
                Some(frame) => {
                    &&& old(self)@.dom().contains(id)
                    &&& old(self)@[id].len() > 0
                    &&& frame@ == old(self)@[id][0]
                    &&& final(self)@ == old(self)@.insert(id, old(self)@[id].drop_first())
                },
                None => {
                    &&& !old(self)@.dom().contains(id) || old(self)@[id].len() == 0
                    &&& final(self)@ == old(self)@
                },
            },
    {
        self.registry.dequeue(id)
    }

    /// Handles one frame that the connection `src` sent.
    ///
    /// A frame of more than `max_frame_bytes` is refused unread, and one that
    /// holds no envelope is refused: the sender alone is told, and stays
    /// connected. A frame of a sender that is not registered is dropped. An
    /// envelope is queued, as its payload, once for each of its recipients.
    /// Whoever is to get something and has a full queue is dropped from the
    /// bus instead; nobody else is touched by that.
    #[verifier::rlimit(40)]
    pub fn handle_frame(&mut self, src: u64, frame: &[u8]) -> (r: Outcome)
        requires
            old(self).wf(),
        ensures
            final(self).wf(),
            final(self).settings() == old(self).settings(),
            final(self).connections().capacity() == old(self).connections().capacity(),
            final(self).connections().queue_limit() == old(self).connections().queue_limit(),
            final(self).connections().next_id() == old(self).connections().next_id(),
            r.error == judged(old(self)@.dom(), old(self).max_frame_bytes(), src, frame@),
            final(self)@ == relayed(
                old(self)@,
                old(self).queue_limit(),
                old(self).max_frame_bytes(),
                src,
                frame@,
            ),
            r.delivery.queued@.to_set() == reached(
                old(self)@,
                addressees(old(self)@.dom(), old(self).max_frame_bytes(), src, frame@),
                old(self).queue_limit(),
            ),
            r.delivery.dropped@.to_set() == overrun(
                old(self)@,
                addressees(old(self)@.dom(), old(self).max_frame_bytes(), src, frame@),
                old(self).queue_limit(),
            ),
            r.delivery.queued@.no_duplicates(),
            r.delivery.dropped@.no_duplicates(),
            final(self)@.dom().len() == old(self)@.dom().len() - r.delivery.dropped@.len(),
    {
        let ghost q = self.registry@;
        let ghost limit = self.registry.queue_limit() as nat;
        let ghost to = addressees(q.dom(), self.max_frame_bytes(), src, frame@);
        let max_bytes: u64 = self.config.max_msg_size as u64 * 1024;
        if frame.len() as u64 > max_bytes {
            let mut sender: Vec<u64> = Vec::new();
            sender.push(src);
            assert(targets(sender@, None) =~= to) by {
                assert(sender@[0] == src);
            }
            let delivery: Delivery = fan_out(
                &mut self.registry,
                &sender,
                None,
                true,
                OVERSIZE_NOTICE.as_bytes(),
            );
            return Outcome { error: Some(BusError::OversizeMessage), delivery };
        }
        if !self.registry.contains(src) {
            let nobody: Vec<u64> = Vec::new();
            assert(targets(nobody@, None) =~= to);
            let delivery: Delivery = fan_out(&mut self.registry, &nobody, None, true, frame);
            assert(self.registry@ =~= q);
            assert(delivered(q, to, outgoing(self.max_frame_bytes(), frame@), limit) =~= q);
            return Outcome { error: Some(BusError::ConnectionLost), delivery };
        }
        match Envelope::parse(frame) {
            None => {
                let mut sender: Vec<u64> = Vec::new();
                sender.push(src);
                assert(targets(sender@, None) =~= to) by {
                    assert(sender@[0] == src);
                }
                let delivery: Delivery = fan_out(
                    &mut self.registry,
                    &sender,
                    None,
                    true,
                    MALFORMED_NOTICE.as_bytes(),
                );
                Outcome { error: Some(BusError::MalformedEnvelope), delivery }
            },
            Some(e) => {
                if e.destination.len() > 0 {
                    assert(targets(e.destination@, None) =~= to);
                    let delivery: Delivery = fan_out(
                        &mut self.registry,
                        &e.destination,
                        None,
                        false,
                        e.payload.as_slice(),
                    );
                    Outcome { error: None, delivery }
                } else {
                    let everybody: Vec<u64> = self.registry.snapshot();
                    assert(targets(everybody@, Some(src)) =~= to) by {
                        assert forall|id: u64| targets(everybody@, Some(src)).contains(id)
                            <==> to.contains(id) by {
                            if targets(everybody@, Some(src)).contains(id) {
                                let j = choose|j: int|
                                    0 <= j < everybody@.len() && everybody@[j] == id;
                                assert(everybody@[j] == id);
                                assert(everybody@.contains(id));
                            }
                            if to.contains(id) {
                                assert(everybody@.contains(id));
                                let j = choose|j: int|
                                    0 <= j < everybody@.len() && everybody@[j] == id;
                                assert(everybody@[j] == id);
                            }
                        }
                    }
                    let delivery: Delivery = fan_out(
                        &mut self.registry,
                        &everybody,
                        Some(src),
                        true,
                        e.payload.as_slice(),
                    );
                    Outcome { error: None, delivery }
                }
            },
        }
    }
}

} // verus!
