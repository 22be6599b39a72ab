//! The state machine of one connection.
//!
//! A connection starts unidentified and becomes a camera or a dispatcher,
//! once and for good.  A camera may report plates.  Any client may ask for
//! heartbeats, once.  Whatever else a client sends is a protocol error: it
//! is told so and the connection is closed.
//!
//! The machine decides and leaves the doing to its caller: every event
//! yields an [`Action`] for the caller to carry out.

use crate::speed_daemon::codec::{ClientMessage, ClientToServerMessage, CodecError};
use crate::speed_daemon::heartbeat::{heartbeat_period, period_millis};
use crate::speed_daemon::tickets::{Sighting, SightingView};
use vstd::prelude::*;

verus! {

/// What a connection has identified itself as.
#[derive(Debug, PartialEq, Eq)]
pub enum Role {
    /// Not identified yet.
    Unidentified,
    /// A camera at `mile` of `road`, where the limit is `limit`.
    Camera { road: u16, mile: u16, limit: u16 },
    /// A dispatcher for `roads`.
    Dispatcher { roads: Vec<u16> },
}

/// The mathematical value of a [`Role`].
pub enum RoleView {
    Unidentified,
    Camera { road: u16, mile: u16, limit: u16 },
    Dispatcher { roads: Seq<u16> },
}

impl View for Role {
    type V = RoleView;

    open spec fn view(&self) -> RoleView {
        match *self {
            Role::Unidentified => RoleView::Unidentified,
            Role::Camera { road, mile, limit } => RoleView::Camera { road, mile, limit },
            Role::Dispatcher { roads } => RoleView::Dispatcher { roads: roads@ },
        }
    }
}

/// What the caller of the state machine has to do.
#[derive(Debug, PartialEq, Eq)]
pub enum Action {
    /// Nothing.
    Nothing,
    /// Hand the sighting to the ticket engine.
    Observe { sighting: Sighting },
    /// Register the connection as a dispatcher for `roads`.
    Register { roads: Vec<u16> },
    /// Start a timer that reports a heartbeat as due every `period_millis`
    /// milliseconds until the connection closes.
    StartHeartbeat { period_millis: u64 },
    /// Send a `Heartbeat` message.
    SendHeartbeat,
    /// Send an `Error` message with this text, then close the connection
    /// and release what it holds; `unregister` says that the connection is
    /// a dispatcher and has to leave the router.
    Reject { message: String, unregister: bool },
    /// The connection is gone: release what it holds; `unregister` says
    /// that it was a dispatcher and has to leave the router.
    Release { unregister: bool },
}

/// The mathematical value of an [`Action`].
pub enum ActionView {
    Nothing,
    Observe { sighting: SightingView },
    Register { roads: Seq<u16> },
    StartHeartbeat { period_millis: u64 },
    SendHeartbeat,
    Reject { message: Seq<char>, unregister: bool },
    Release { unregister: bool },
}

impl View for Action {
    type V = ActionView;

    open spec fn view(&self) -> ActionView {
        match *self {
            Action::Nothing => ActionView::Nothing,
            Action::Observe { sighting } => ActionView::Observe { sighting: sighting@ },
            Action::Register { roads } => ActionView::Register { roads: roads@ },
            Action::StartHeartbeat { period_millis } => ActionView::StartHeartbeat {
                period_millis,
            },
            Action::SendHeartbeat => ActionView::SendHeartbeat,
            Action::Reject { message, unregister } => ActionView::Reject {
                message: message@,
                unregister,
            },
            Action::Release { unregister } => ActionView::Release { unregister },
        }
    }
}

/// What happens on a connection.
pub enum SessionEvent {
    /// A message arrived.
    Message(ClientMessage),
    /// The bytes that arrived are no frame.
    FrameError(CodecError),
    /// The heartbeat timer fired.
    HeartbeatDue,
    /// The peer went away, or a write to it failed.
    Disconnected,
}

/// The state of a connection.
pub struct SessionState {
    /// What the connection has identified itself as.
    pub role: RoleView,
    /// The heartbeat interval that the client asked for, in deciseconds,
    /// once it has asked.
    pub heartbeat: Option<u32>,
    /// Whether the connection is still served.
    pub open: bool,
}

/// The text of the error sent to a client that identifies itself twice.
pub open spec fn already_identified() -> Seq<char> {
    "already identified"@
}

/// The text of the error sent to a client that reports a plate and is no
/// camera.
pub open spec fn not_a_camera() -> Seq<char> {
    "plate reported by a client that is not a camera"@
}

/// The text of the error sent to a client that asks for heartbeats twice.
pub open spec fn heartbeat_already_requested() -> Seq<char> {
    "heartbeat already requested"@
}

/// The text of the error sent to a client whose bytes are no frame.
pub open spec fn frame_error_text(error: CodecError) -> Seq<char> {
    match error {
        CodecError::UnknownMessageType { .. } => "unknown message type"@,
        CodecError::InvalidText => "text is not valid UTF-8"@,
        CodecError::FieldTooLong => "field too long"@,
        CodecError::Truncated => "truncated frame"@,
    }
}

/// The state of a connection that has just been accepted.
pub open spec fn initial() -> SessionState {
    SessionState { role: RoleView::Unidentified, heartbeat: None, open: true }
}

/// The state of `state` once it is closed.
pub open spec fn closed(state: SessionState) -> SessionState {
    SessionState { open: false, ..state }
}

/// What a protocol error does: the client is told and the connection is
/// closed.
pub open spec fn reject(state: SessionState, message: Seq<char>) -> (SessionState, ActionView) {
    (closed(state), ActionView::Reject { message, unregister: state.role is Dispatcher })
}

/// The state machine: the state after `event` and what the caller has to
/// do.
pub open spec fn step(state: SessionState, event: SessionEvent) -> (SessionState, ActionView) {
    if !state.open {
        (state, ActionView::Nothing)
    } else {
        match event {
            SessionEvent::Message(ClientMessage::IAmCamera { road, mile, limit }) => {
                if state.role is Unidentified {
                    (
                        SessionState { role: RoleView::Camera { road, mile, limit }, ..state },
                        ActionView::Nothing,
                    )
                } else {
                    reject(state, already_identified())
                }
            },
            SessionEvent::Message(ClientMessage::IAmDispatcher { roads }) => {
                if state.role is Unidentified {
                    (
                        SessionState { role: RoleView::Dispatcher { roads }, ..state },
                        ActionView::Register { roads },
                    )
                } else {
                    reject(state, already_identified())
                }
            },
            SessionEvent::Message(ClientMessage::Plate { plate, timestamp }) => {
                match state.role {
                    RoleView::Camera { road, mile, limit } => (
                        state,
                        ActionView::Observe {
                            sighting: SightingView { plate, road, mile, timestamp, limit },
                        },
                    ),
                    _ => reject(state, not_a_camera()),
                }
            },
            SessionEvent::Message(ClientMessage::WantHeartbeat { interval }) => {
                if state.heartbeat is Some {
                    reject(state, heartbeat_already_requested())
                } else if interval == 0 {
                    (SessionState { heartbeat: Some(interval), ..state }, ActionView::Nothing)
                } else {
                    (
                        SessionState { heartbeat: Some(interval), ..state },
                        ActionView::StartHeartbeat {
                            period_millis: period_millis(interval),
                        },
                    )
                }
            },
            SessionEvent::FrameError(error) => reject(state, frame_error_text(error)),
            SessionEvent::HeartbeatDue => {
                if state.heartbeat is Some && state.heartbeat->Some_0 > 0 {
                    (state, ActionView::SendHeartbeat)
                } else {
                    (state, ActionView::Nothing)
                }
            },
            SessionEvent::Disconnected => (
                closed(state),
                ActionView::Release { unregister: state.role is Dispatcher },
            ),
        }
    }
}

/// The state machine of one connection.
#[derive(Debug)]
pub struct Session {
    role: Role,
    heartbeat: Option<u32>,
    open: bool,
}

impl View for Session {
    type V = SessionState;

    closed spec fn view(&self) -> SessionState {
        SessionState { role: self.role@, heartbeat: self.heartbeat, open: self.open }
    }
}

/// The text of the error for a frame error.
pub fn describe_frame_error(error: CodecError) -> (text: String)
    ensures
        text@ == frame_error_text(error),
{
    match error {
        CodecError::UnknownMessageType { .. } => "unknown message type".to_owned(),
        CodecError::InvalidText => "text is not valid UTF-8".to_owned(),
        CodecError::FieldTooLong => "field too long".to_owned(),
        CodecError::Truncated => "truncated frame".to_owned(),
    }
}

impl Session {
    /// The session of a connection that has just been accepted.
    pub fn new() -> (session: Session)
        ensures
            session@ == initial(),
    {
        Session { role: Role::Unidentified, heartbeat: None, open: true }
    }

    /// Whether the connection is still served.
    pub fn is_open(&self) -> (open: bool)
        ensures
            open == self@.open,
    {
        self.open
    }

    /// Whether the connection has identified itself as a dispatcher.
    pub fn is_dispatcher(&self) -> (yes: bool)
        ensures
            yes == self@.role is Dispatcher,
    {
        match self.role {
            Role::Dispatcher { .. } => true,
            _ => false,
        }
    }

    /// Whether the connection has identified itself as a camera.
    pub fn is_camera(&self) -> (yes: bool)
        ensures
            yes == self@.role is Camera,
    {
        match self.role {
            Role::Camera { .. } => true,
            _ => false,
        }
    }

    /// The heartbeat interval that the client asked for, in deciseconds,
    /// once it has asked.
    pub fn heartbeat_interval(&self) -> (interval: Option<u32>)
        ensures
            interval == self@.heartbeat,
    {
        self.heartbeat
    }

    /// Closes the session after a protocol error.
    fn reject(&mut self, message: String) -> (action: Action)
        ensures
            (final(self)@, action@) == reject(old(self)@, message@),
    {
        let unregister = self.is_dispatcher();
        self.open = false;
        Action::Reject { message, unregister }
    }

    /// Takes a message from the client.
    pub fn on_message(&mut self, message: ClientToServerMessage) -> (action: Action)
        ensures
            (final(self)@, action@) == step(old(self)@, SessionEvent::Message(message@)),
    {
        if !self.open {
            return Action::Nothing;
        }
        match message {
            ClientToServerMessage::IAmCamera { road, mile, limit } => {
                match self.role {
                    Role::Unidentified => {
                        self.role = Role::Camera { road, mile, limit };
                        Action::Nothing
                    },
                    _ => self.reject("already identified".to_owned()),
                }
            },
            ClientToServerMessage::IAmDispatcher { roads } => {
                match self.role {
                    Role::Unidentified => {
                        let registered = roads.clone();
                        self.role = Role::Dispatcher { roads };
                        Action::Register { roads: registered }
                    },
                    _ => self.reject("already identified".to_owned()),
                }
            },
            ClientToServerMessage::Plate { plate, timestamp } => {
                match self.role {
                    Role::Camera { road, mile, limit } => Action::Observe {
                        sighting: Sighting { plate, road, mile, timestamp, limit },
                    },
                    _ => self.reject("plate reported by a client that is not a camera".to_owned()),
                }
            },
            ClientToServerMessage::WantHeartbeat { interval } => {
                if self.heartbeat.is_some() {
                    self.reject("heartbeat already requested".to_owned())
                } else {
                    self.heartbeat = Some(interval);
                    match heartbeat_period(interval) {
                        Some(period_millis) => Action::StartHeartbeat { period_millis },
                        None => Action::Nothing,
                    }
                }
            },
        }
    }

    /// Takes note that the bytes that arrived are no frame.
    pub fn on_frame_error(&mut self, error: CodecError) -> (action: Action)
        ensures
            (final(self)@, action@) == step(old(self)@, SessionEvent::FrameError(error)),
    {
        if !self.open {
            return Action::Nothing;
        }
        self.reject(describe_frame_error(error))
    }

    /// Takes note that the heartbeat timer fired.
    pub fn on_heartbeat_due(&mut self) -> (action: Action)
        ensures
            (final(self)@, action@) == step(old(self)@, SessionEvent::HeartbeatDue),
    {
        if !self.open {
            return Action::Nothing;
        }
        match self.heartbeat {
            Some(interval) => {
                if interval > 0 {
                    Action::SendHeartbeat
                } else {
                    Action::Nothing
                }
            },
            None => Action::Nothing,
        }
    }

    /// Takes note that the peer went away or that a write to it failed.
    pub fn on_disconnect(&mut self) -> (action: Action)
        ensures
            (final(self)@, action@) == step(old(self)@, SessionEvent::Disconnected),
    {
        if !self.open {
            return Action::Nothing;
        }
        let unregister = self.is_dispatcher();
        self.open = false;
        Action::Release { unregister }
    }
}

/// The state of a connection after `events`.
pub open spec fn state_after(state: SessionState, events: Seq<SessionEvent>) -> SessionState
    decreases events.len(),
{
    if events.len() == 0 {
        state
    } else {
        step(state_after(state, events.drop_last()), events.last()).0
    }
}

/// What the caller has to do on the `i`-th of `events`.
pub open spec fn action_at(state: SessionState, events: Seq<SessionEvent>, i: int) -> ActionView
    recommends
        0 <= i < events.len(),
{
    step(state_after(state, events.take(i)), events[i]).1
}

/// A plate from a client that has not identified itself as a camera is a
/// protocol error: the client is sent an error and the connection is closed.
pub proof fn lemma_plate_needs_camera(state: SessionState, plate: Seq<char>, timestamp: u32)
    requires
        state.open,
        !(state.role is Camera),
    ensures
        step(state, SessionEvent::Message(ClientMessage::Plate { plate, timestamp })) == (
            closed(state),
            ActionView::Reject { message: not_a_camera(), unregister: state.role is Dispatcher },
        ),
{
}

/// A connection has at most one role, set at most once: no event changes
/// the role of an identified connection, and a second identification is a
/// protocol error.
pub proof fn lemma_role_is_set_once(state: SessionState, event: SessionEvent)
    requires
        !(state.role is Unidentified),
    ensures
        step(state, event).0.role == state.role,
        state.open && (event matches SessionEvent::Message(m) && (m is IAmCamera
            || m is IAmDispatcher)) ==> step(state, event) == reject(state, already_identified()),
{
}

/// A closed connection stays closed, and nothing more is done for it.
pub proof fn lemma_closed_is_final(state: SessionState, event: SessionEvent)
    ensures
        !state.open ==> step(state, event) == (state, ActionView::Nothing),
        !step(state, event).0.open ==> !(step(state, event).1 is Observe) && !(step(
            state,
            event,
        ).1 is Register) && !(step(state, event).1 is SendHeartbeat),
{
}

/// A second request for heartbeats is a protocol error.
pub proof fn lemma_heartbeat_is_requested_once(state: SessionState, interval: u32)
    requires
        state.open,
        state.heartbeat is Some,
    ensures
        step(state, SessionEvent::Message(ClientMessage::WantHeartbeat { interval })) == reject(
            state,
            heartbeat_already_requested(),
        ),
{
}

/// The request for heartbeats stands once it is made.
proof fn lemma_heartbeat_stands(state: SessionState, events: Seq<SessionEvent>)
    requires
        state.heartbeat is Some,
    ensures
        state_after(state, events).heartbeat == state.heartbeat,
    decreases events.len(),
{
    if events.len() > 0 {
        lemma_heartbeat_stands(state, events.drop_last());
    }
}

/// A client that asked for heartbeats at an interval of zero is never sent
/// one, and no timer is ever started for it, whatever happens on the
/// connection afterwards.
pub proof fn lemma_no_heartbeat_at_interval_zero(
    state: SessionState,
    events: Seq<SessionEvent>,
    i: int,
)
    requires
        state.heartbeat == Some(0u32),
        0 <= i < events.len(),
    ensures
        !(action_at(state, events, i) is SendHeartbeat),
        !(action_at(state, events, i) is StartHeartbeat),
{
    lemma_heartbeat_stands(state, events.take(i));
}

/// A client that asked for heartbeats at an interval above zero is sent one
/// whenever the timer fires, as long as the connection is open, and the
/// timer that was started fires every tenth of the interval in seconds.
pub proof fn lemma_heartbeat_while_open(state: SessionState, interval: u32)
    requires
        state.open,
        state.heartbeat is None,
        interval > 0,
    ensures
        ({
            let (asked, action) = step(
                state,
                SessionEvent::Message(ClientMessage::WantHeartbeat { interval }),
            );
            &&& action == ActionView::StartHeartbeat { period_millis: period_millis(interval) }
            &&& asked.open
            &&& step(asked, SessionEvent::HeartbeatDue) == (asked, ActionView::SendHeartbeat)
            &&& step(closed(asked), SessionEvent::HeartbeatDue) == (
                closed(asked),
                ActionView::Nothing,
            )
        }),
{
}

} // verus!
