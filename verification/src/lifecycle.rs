//! The life of one connection: `Connecting`, `Open`, `Closing`, `Closed`.
//! Only an open connection is registered with the bus, and whatever ends that
//! state takes the connection out of the registry.

use crate::fanout::{overrun, reached, Delivery};
use crate::message_bus::{addressees, judged, relayed, BusError, MessageBus, Outcome};
use vstd::prelude::*;

verus! {

/// Where a connection stands in its life.
#[derive(Clone, Copy, Debug, PartialEq, Eq, Structural)]
pub enum ConnState {
    /// The handshake is under way.
    Connecting,
    /// Frames are read from the connection and written to it.
    Open,
    /// A close was asked for; the stream is still there.
    Closing,
    /// The stream is gone. Nothing follows.
    Closed,
}

/// What happens to a connection.
#[derive(Clone, Copy, Debug, PartialEq, Eq, Structural)]
pub enum Event {
    /// The handshake succeeded.
    HandshakeDone,
    /// The handshake failed.
    HandshakeFailed,
    /// The client or the server asked for the connection to be closed.
    CloseRequested,
    /// The client broke the transport's protocol.
    ProtocolError,
    /// A frame could not be written to the client, or its queue ran full.
    SendFailed,
    /// The stream reported its end.
    StreamClosed,
}

/// What the bus does about an event.
#[derive(Clone, Copy, Debug, PartialEq, Eq, Structural)]
pub enum Action {
    Nothing,
    /// The connection is registered.
    Register,
    /// The connection is taken out of the registry.
    Unregister,
}

/// The state after `event`, and what is done. `has_room` says whether the
/// registry takes one more connection; a handshake that finds it full is
/// refused.
pub open spec fn step(state: ConnState, event: Event, has_room: bool) -> (ConnState, Action) {
    match state {
        ConnState::Connecting => match event {
            Event::HandshakeDone => if has_room {
                (ConnState::Open, Action::Register)
            } else {
                (ConnState::Closed, Action::Nothing)
            },
            _ => (ConnState::Closed, Action::Nothing),
        },
        ConnState::Open => match event {
            Event::CloseRequested => (ConnState::Closing, Action::Unregister),
            _ => (ConnState::Closed, Action::Unregister),
        },
        ConnState::Closing => match event {
            Event::CloseRequested => (ConnState::Closing, Action::Nothing),
            _ => (ConnState::Closed, Action::Nothing),
        },
        ConnState::Closed => (ConnState::Closed, Action::Nothing),
    }
}

/// A closed connection stays closed, whatever happens.
pub proof fn law_closed_is_final(event: Event, has_room: bool)
    ensures
        step(ConnState::Closed, event, has_room) == (ConnState::Closed, Action::Nothing),
{
}

/// An open connection stays open under no event, and each event unregisters
/// it. No other state unregisters, and only a handshake registers.
pub proof fn law_leaving_open_unregisters(state: ConnState, event: Event, has_room: bool)
    ensures
        step(state, event, has_room).1 == Action::Unregister <==> state == ConnState::Open,
        state == ConnState::Open ==> step(state, event, has_room).0 != ConnState::Open,
        step(state, event, has_room).1 == Action::Register <==> step(state, event, has_room).0
            == ConnState::Open,
        step(state, event, has_room).0 == ConnState::Open ==> state == ConnState::Connecting
            && event == Event::HandshakeDone,
{
}

/// One connection, as the task that serves it holds it.
#[derive(Debug)]
pub struct Session {
    state: ConnState,
    id: Option<u64>,
}

impl Session {
    /// Where the connection stands in its life.
    pub closed spec fn state(&self) -> ConnState {
        self.state
    }

    /// The id that the connection was registered under.
    pub closed spec fn id(&self) -> Option<u64> {
        self.id
    }

    /// An open session has an id; no other has one that counts.
    pub closed spec fn wf(&self) -> bool {
        self.state == ConnState::Open ==> self.id is Some
    }

    /// A connection whose handshake has begun.
    pub fn new() -> (r: Session)
        ensures
            r.wf(),
            r.state() == ConnState::Connecting,
            r.id() is None,
    {
        Session { state: ConnState::Connecting, id: None }
    }

    /// Where the connection stands in its life.
    pub fn current(&self) -> (r: ConnState)
        ensures
            r == self.state(),
    {
        self.state
    }

    /// The id of the connection while it is open.
    pub fn open_id(&self) -> (r: Option<u64>)
        requires
            self.wf(),
        ensures
            r is Some <==> self.state() == ConnState::Open,
            r is Some ==> r == self.id(),
    {
        match self.state {
            ConnState::Open => self.id,
            _ => None,
        }
    }

    /// Takes the connection through `event`: registers it with the bus where
    /// its handshake is done and the bus has room, takes it out of the
    /// registry where it leaves `Open`.
    pub fn on_event(&mut self, bus: &mut MessageBus, event: Event) -> (r: Action)
        requires
            old(self).wf(),
            old(bus).wf(),
        ensures
            final(self).wf(),
            final(bus).wf(),
            final(bus).settings() == old(bus).settings(),
            final(bus).connections().capacity() == old(bus).connections().capacity(),
            final(bus).connections().queue_limit() == old(bus).connections().queue_limit(),
            (final(self).state(), r) == step(
                old(self).state(),
                event,
                old(bus)@.dom().len() < old(bus).connections().capacity() && old(
                    bus,
                ).connections().next_id() < u64::MAX,
            ),
            match r {
                Action::Register => {
                    &&& final(self).id() == Some(old(bus).connections().next_id())
                    &&& final(bus)@ == old(bus)@.insert(
                        old(bus).connections().next_id(),
                        Seq::empty(),
                    )
                    &&& final(bus).connections().next_id() == old(bus).connections().next_id() + 1
                },
                Action::Unregister => {
                    &&& final(self).id() == old(self).id()
                    &&& final(bus)@ == old(bus)@.remove(old(self).id()->0)
                    &&& final(bus).connections().next_id() == old(bus).connections().next_id()
                },
                Action::Nothing => {
                    &&& final(self).id() == old(self).id()
                    &&& final(bus)@ == old(bus)@
                    &&& final(bus).connections() == old(bus).connections()
                },
            },
    {
        match self.state {
            ConnState::Connecting => match event {
                Event::HandshakeDone => match bus.connect() {
                    Ok(id) => {
                        self.state = ConnState::Open;
                        self.id = Some(id);
                        Action::Register
                    },
                    Err(_) => {
                        self.state = ConnState::Closed;
                        Action::Nothing
                    },
                },
                _ => {
                    self.state = ConnState::Closed;
                    Action::Nothing
                },
            },
            ConnState::Open => {
                match self.id {
                    Some(id) => {
                        bus.disconnect(id);
                    },
                    None => {},
                }
                self.state = match event {
                    Event::CloseRequested => ConnState::Closing,
                    _ => ConnState::Closed,
                };
                Action::Unregister
            },
            ConnState::Closing => {
                self.state = match event {
                    Event::CloseRequested => ConnState::Closing,
                    _ => ConnState::Closed,
                };
                Action::Nothing
            },
            ConnState::Closed => Action::Nothing,
        }
    }

    /// Hands a frame that the connection sent to the bus. A connection that
    /// is not open sends nothing: its frame is refused as from a lost
    /// connection, and changes nothing.
    pub fn on_frame(&self, bus: &mut MessageBus, frame: &[u8]) -> (r: Outcome)
        requires
            self.wf(),
            old(bus).wf(),
        ensures
            final(bus).wf(),
            final(bus).settings() == old(bus).settings(),
            final(bus).connections().capacity() == old(bus).connections().capacity(),
            final(bus).connections().queue_limit() == old(bus).connections().queue_limit(),
            final(bus).connections().next_id() == old(bus).connections().next_id(),
            self.state() != ConnState::Open ==> {
                &&& r.error == Some(BusError::ConnectionLost)
                &&& final(bus)@ == old(bus)@
                &&& r.delivery.queued@.len() == 0
                &&& r.delivery.dropped@.len() == 0
            },
            self.state() == ConnState::Open ==> {
                &&& r.error == judged(
                    old(bus)@.dom(),
                    old(bus).max_frame_bytes(),
                    self.id()->0,
                    frame@,
                )
                &&& final(bus)@ == relayed(
                    old(bus)@,
                    old(bus).queue_limit(),
                    old(bus).max_frame_bytes(),
                    self.id()->0,
                    frame@,
                )
                &&& r.delivery.queued@.to_set() == reached(
                    old(bus)@,
                    addressees(
                        old(bus)@.dom(),
                        old(bus).max_frame_bytes(),
                        self.id()->0,
                        frame@,
                    ),
                    old(bus).queue_limit(),
                )
                &&& r.delivery.dropped@.to_set() == overrun(
                    old(bus)@,
                    addressees(
                        old(bus)@.dom(),
                        old(bus).max_frame_bytes(),
                        self.id()->0,
                        frame@,
                    ),
                    old(bus).queue_limit(),
                )
            },
            r.delivery.queued@.no_duplicates(),
            r.delivery.dropped@.no_duplicates(),
            final(bus)@.dom().len() == old(bus)@.dom().len() - r.delivery.dropped@.len(),
    {
        match self.open_id() {
            Some(id) => bus.handle_frame(id, frame),
            None => Outcome {
                error: Some(BusError::ConnectionLost),
                delivery: Delivery { queued: Vec::new(), dropped: Vec::new() },
            },
        }
    }
}

} // verus!
