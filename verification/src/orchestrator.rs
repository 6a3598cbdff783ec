//! The decisions of the task that keeps a venue session alive: when to
//! connect, when to fetch a snapshot, when to wait, and what a control
//! command changes. Whoever runs the task performs each action and hands
//! back what happened.

use vstd::prelude::*;
use crate::exchanges::{Exchange, ExchangeType, formatted_symbol};

verus! {

/// Seconds to wait after a connection could not be opened.
pub const RETRY_SECONDS: u64 = 5;

/// A command to the task. Each one ends the running session and starts a
/// new one.
#[derive(Debug)]
pub enum Control {
    /// Fetch a new snapshot.
    Refetch,
    /// Follow another symbol.
    ChangeSymbol(String),
    /// Follow another venue.
    ChangeExchange(ExchangeType),
}

/// What the task is waiting for.
#[derive(Clone, Copy, Debug, PartialEq, Eq, Structural)]
pub enum Phase {
    /// Nothing has been asked for yet.
    Idle,
    /// The stream is being opened.
    Connecting,
    /// The stream is open and a snapshot is being fetched.
    Fetching,
    /// Events are being forwarded until a command arrives.
    Streaming,
    /// The time to the next attempt is running.
    Waiting,
    /// The control channel is closed: the task has ended.
    Stopped,
}

/// What happened since the last action.
#[derive(Debug)]
pub enum Event {
    /// The task starts.
    Started,
    /// The stream was opened.
    Connected,
    /// The stream could not be opened.
    ConnectFailed,
    /// The snapshot was fetched.
    SnapshotFetched,
    /// The snapshot could not be fetched.
    SnapshotFailed,
    /// The time to the next attempt has passed.
    WaitElapsed,
    /// A command arrived.
    Command(Control),
    /// The control channel was closed.
    ControlClosed,
}

/// What the task is to do next.
#[derive(Debug)]
pub enum Action {
    /// End the running session, if any, and open the stream of `symbol` at
    /// the venue.
    Connect { exchange_type: ExchangeType, symbol: String },
    /// Fetch a snapshot of `symbol` at the venue.
    FetchSnapshot { exchange_type: ExchangeType, symbol: String },
    /// Forward the stream's events, after the snapshot where one was
    /// fetched, until a command arrives.
    Forward { snapshot_first: bool },
    /// Wait this many seconds.
    Sleep { seconds: u64 },
    /// Nothing: the event does not belong to what the task is waiting for.
    Ignore,
    /// End the task.
    Stop,
}

/// A command as plain values.
pub enum ControlView {
    Refetch,
    ChangeSymbol(Seq<char>),
    ChangeExchange(ExchangeType),
}

/// An event as plain values.
pub enum EventView {
    Started,
    Connected,
    ConnectFailed,
    SnapshotFetched,
    SnapshotFailed,
    WaitElapsed,
    Command(ControlView),
    ControlClosed,
}

/// An action as plain values.
pub enum ActionView {
    Connect { exchange_type: ExchangeType, symbol: Seq<char> },
    FetchSnapshot { exchange_type: ExchangeType, symbol: Seq<char> },
    Forward { snapshot_first: bool },
    Sleep { seconds: u64 },
    Ignore,
    Stop,
}

/// The task's state as plain values.
pub struct SessionView {
    pub symbol: Seq<char>,
    pub exchange_type: ExchangeType,
    pub phase: Phase,
}

impl View for Control {
    type V = ControlView;

    open spec fn view(&self) -> ControlView {
        match self {
            Control::Refetch => ControlView::Refetch,
            Control::ChangeSymbol(s) => ControlView::ChangeSymbol(s@),
            Control::ChangeExchange(v) => ControlView::ChangeExchange(*v),
        }
    }
}

impl View for Event {
    type V = EventView;

    open spec fn view(&self) -> EventView {
        match self {
            Event::Started => EventView::Started,
            Event::Connected => EventView::Connected,
            Event::ConnectFailed => EventView::ConnectFailed,
            Event::SnapshotFetched => EventView::SnapshotFetched,
            Event::SnapshotFailed => EventView::SnapshotFailed,
            Event::WaitElapsed => EventView::WaitElapsed,
            Event::Command(c) => EventView::Command(c@),
            Event::ControlClosed => EventView::ControlClosed,
        }
    }
}

impl View for Action {
    type V = ActionView;

    open spec fn view(&self) -> ActionView {
        match self {
            Action::Connect { exchange_type, symbol } => ActionView::Connect {
                exchange_type: *exchange_type,
                symbol: symbol@,
            },
            Action::FetchSnapshot { exchange_type, symbol } => ActionView::FetchSnapshot {
                exchange_type: *exchange_type,
                symbol: symbol@,
            },
            Action::Forward { snapshot_first } => ActionView::Forward {
                snapshot_first: *snapshot_first,
            },
            Action::Sleep { seconds } => ActionView::Sleep { seconds: *seconds },
            Action::Ignore => ActionView::Ignore,
            Action::Stop => ActionView::Stop,
        }
    }
}

/// The session after a command: a new symbol or a new venue where the
/// command names one.
pub open spec fn with_command(s: SessionView, c: ControlView) -> SessionView {
    match c {
        ControlView::Refetch => s,
        ControlView::ChangeSymbol(symbol) => SessionView { symbol, ..s },
        ControlView::ChangeExchange(exchange_type) => SessionView { exchange_type, ..s },
    }
}

/// The action that opens the stream of the session's symbol at its venue.
pub open spec fn connect_action(s: SessionView) -> ActionView {
    ActionView::Connect {
        exchange_type: s.exchange_type,
        symbol: formatted_symbol(s.exchange_type, s.symbol),
    }
}

/// The session after an event, and what the task is to do next.
pub open spec fn step(s: SessionView, e: EventView) -> (SessionView, ActionView) {
    match (s.phase, e) {
        (Phase::Idle, EventView::Started) => (
            SessionView { phase: Phase::Connecting, ..s },
            connect_action(s),
        ),
        (Phase::Connecting, EventView::Connected) => (
            SessionView { phase: Phase::Fetching, ..s },
            ActionView::FetchSnapshot {
                exchange_type: s.exchange_type,
                symbol: formatted_symbol(s.exchange_type, s.symbol),
            },
        ),
        (Phase::Connecting, EventView::ConnectFailed) => (
            SessionView { phase: Phase::Waiting, ..s },
            ActionView::Sleep { seconds: RETRY_SECONDS },
        ),
        (Phase::Waiting, EventView::WaitElapsed) => (
            SessionView { phase: Phase::Connecting, ..s },
            connect_action(s),
        ),
        (Phase::Fetching, EventView::SnapshotFetched) => (
            SessionView { phase: Phase::Streaming, ..s },
            ActionView::Forward { snapshot_first: true },
        ),
        (Phase::Fetching, EventView::SnapshotFailed) => (
            SessionView { phase: Phase::Streaming, ..s },
            ActionView::Forward { snapshot_first: false },
        ),
        (Phase::Streaming, EventView::Command(c)) => (
            SessionView { phase: Phase::Connecting, ..with_command(s, c) },
            connect_action(with_command(s, c)),
        ),
        (Phase::Streaming, EventView::ControlClosed) => (
            SessionView { phase: Phase::Stopped, ..s },
            ActionView::Stop,
        ),
        _ => (s, ActionView::Ignore),
    }
}

/// The state of the task.
#[derive(Debug)]
pub struct Session {
    symbol: String,
    exchange_type: ExchangeType,
    phase: Phase,
}

impl View for Session {
    type V = SessionView;

    closed spec fn view(&self) -> SessionView {
        SessionView { symbol: self.symbol@, exchange_type: self.exchange_type, phase: self.phase }
    }
}

impl Session {
    /// A task for `symbol` at a venue that has not started.
    pub fn new(symbol: String, exchange_type: ExchangeType) -> (r: Session)
        ensures
            r@ == (SessionView { symbol: symbol@, exchange_type, phase: Phase::Idle }),
    {
        Session { symbol, exchange_type, phase: Phase::Idle }
    }

    /// What the task is waiting for.
    pub fn phase(&self) -> (r: Phase)
        ensures
            r == self@.phase,
    {
        self.phase
    }

    /// The venue that the task follows.
    pub fn exchange_type(&self) -> (r: ExchangeType)
        ensures
            r == self@.exchange_type,
    {
        self.exchange_type
    }

    /// The symbol as the session's venue writes it.
    fn venue_symbol(&self) -> (r: String)
        ensures
            r@ == formatted_symbol(self@.exchange_type, self@.symbol),
    {
        self.exchange_type.create_exchange().format_symbol(self.symbol.as_str())
    }

    /// Takes what happened and says what to do next.
    pub fn on_event(&mut self, event: Event) -> (r: Action)
        ensures
            final(self)@ == step(old(self)@, event@).0,
            r@ == step(old(self)@, event@).1,
    {
        match self.phase {
            Phase::Idle => match event {
                Event::Started => {
                    self.phase = Phase::Connecting;
                    Action::Connect { exchange_type: self.exchange_type, symbol: self.venue_symbol() }
                },
                _ => Action::Ignore,
            },
            Phase::Connecting => match event {
                Event::Connected => {
                    self.phase = Phase::Fetching;
                    Action::FetchSnapshot {
                        exchange_type: self.exchange_type,
                        symbol: self.venue_symbol(),
                    }
                },
                Event::ConnectFailed => {
                    self.phase = Phase::Waiting;
                    Action::Sleep { seconds: RETRY_SECONDS }
                },
                _ => Action::Ignore,
            },
            Phase::Waiting => match event {
                Event::WaitElapsed => {
                    self.phase = Phase::Connecting;
                    Action::Connect { exchange_type: self.exchange_type, symbol: self.venue_symbol() }
                },
                _ => Action::Ignore,
            },
            Phase::Fetching => match event {
                Event::SnapshotFetched => {
                    self.phase = Phase::Streaming;
                    Action::Forward { snapshot_first: true }
                },
                Event::SnapshotFailed => {
                    self.phase = Phase::Streaming;
                    Action::Forward { snapshot_first: false }
                },
                _ => Action::Ignore,
            },
            Phase::Streaming => match event {
                Event::Command(command) => {
                    match command {
                        Control::Refetch => {},
                        Control::ChangeSymbol(symbol) => {
                            self.symbol = symbol;
                        },
                        Control::ChangeExchange(exchange_type) => {
                            self.exchange_type = exchange_type;
                        },
                    }
                    self.phase = Phase::Connecting;
                    Action::Connect { exchange_type: self.exchange_type, symbol: self.venue_symbol() }
                },
                Event::ControlClosed => {
                    self.phase = Phase::Stopped;
                    Action::Stop
                },
                _ => Action::Ignore,
            },
            Phase::Stopped => Action::Ignore,
        }
    }
}

/// A command always leads to a new connection, whatever it names.
pub proof fn lemma_command_reconnects(s: SessionView, c: ControlView)
    requires
        s.phase == Phase::Streaming,
    ensures
        step(s, EventView::Command(c)).0.phase == Phase::Connecting,
        step(s, EventView::Command(c)).1 is Connect,
{
}

} // verus!
