//! The life of one connection to a peer, as a state machine.
//!
//! The machine does no I/O. It is handed what happened to the connection
//! and answers with the next state of the peer's descriptor and with what
//! is to be done. A session is reported as connected and as closed once
//! each at most, and never after it has closed.

use vstd::prelude::*;

verus! {

/// Where a session stands.
#[derive(Clone, Copy, Debug, PartialEq, Eq, Structural)]
pub enum SessionState {
    /// The transport is being dialled.
    Connecting,
    /// The transport is up and the greetings are being exchanged.
    Handshaking,
    /// Both sides have agreed on a protocol version.
    Established,
    /// The session is being shut down.
    Closing,
    /// The session is over.
    Closed,
}

/// Which side opened the connection.
#[derive(Clone, Copy, Debug, PartialEq, Eq, Structural)]
pub enum Direction {
    Inbound,
    Outbound,
}

/// Why a session ended.
#[derive(Clone, Copy, Debug, PartialEq, Eq, Structural)]
pub enum CloseReason {
    /// Nothing was heard from the peer for too long.
    Timeout,
    /// The transport failed or was closed by the peer.
    TransportError,
    /// The two sides support no common protocol version.
    VersionMismatch,
    /// The peer broke the protocol.
    ProtocolViolation,
    /// This side closed the session.
    Shutdown,
}

impl CloseReason {
    /// The reason in words.
    pub open spec fn spec_text(self) -> Seq<char> {
        match self {
            CloseReason::Timeout => "timeout"@,
            CloseReason::TransportError => "transport error"@,
            CloseReason::VersionMismatch => "version mismatch"@,
            CloseReason::ProtocolViolation => "protocol violation"@,
            CloseReason::Shutdown => "shutdown"@,
        }
    }

    /// The reason in words; never empty.
    pub fn text(&self) -> (t: &'static str)
        ensures
            t@ == self.spec_text(),
            t@.len() > 0,
    {
        proof {
            reveal_strlit("timeout");
            reveal_strlit("transport error");
            reveal_strlit("version mismatch");
            reveal_strlit("protocol violation");
            reveal_strlit("shutdown");
        }
        match self {
            CloseReason::Timeout => "timeout",
            CloseReason::TransportError => "transport error",
            CloseReason::VersionMismatch => "version mismatch",
            CloseReason::ProtocolViolation => "protocol violation",
            CloseReason::Shutdown => "shutdown",
        }
    }
}

/// The network address of a peer.
#[derive(Clone, Copy, Debug, PartialEq, Eq, Hash, Structural)]
pub struct Address {
    /// The IP address as a number; an IPv4 address in its IPv6 mapping.
    pub ip: u128,
    pub port: u16,
}

/// The settings of a session.
#[derive(Clone, Debug)]
pub struct SessionConfig {
    /// The protocol versions that this side supports.
    pub versions: Vec<u32>,
    /// Silence, in milliseconds, after which an established session is
    /// closed.
    pub idle_timeout_ms: i64,
    /// Silence, in milliseconds, after which the peer is pinged.
    pub ping_interval_ms: i64,
}

/// What happened to a connection.
#[derive(Clone, Debug)]
pub enum SessionEvent {
    /// The transport that was dialled is up.
    Connected,
    /// The peer's greeting arrived.
    Hello { name: Option<String>, versions: Vec<u32>, domains: Vec<String> },
    /// Some other message of the peer arrived.
    Traffic,
    /// Time has passed.
    Tick,
    /// A read or write on the transport failed.
    TransportFailed,
    /// A message of the peer broke the protocol.
    Violation,
    /// The peer did not answer a request in time.
    ResponseOverdue,
    /// This side wants the session closed.
    Close,
    /// The transport is down.
    TransportClosed,
}

/// What is to be done after a step.
#[derive(Clone, Copy, Debug, PartialEq, Eq, Structural)]
pub enum SessionAction {
    /// Nothing.
    Idle,
    /// Send this side's greeting.
    SendHello,
    /// Tell the host that the session is established.
    NotifyConnected,
    /// Send a ping.
    SendPing,
    /// Shut the transport down.
    Disconnect,
    /// Tell the host that the session is over, and why.
    NotifyClosed(CloseReason),
}

/// Whether both sides support version `v`.
pub open spec fn common_version(ours: Seq<u32>, theirs: Seq<u32>, v: u32) -> bool {
    ours.contains(v) && theirs.contains(v)
}

/// Whether `v` is the greatest version that both sides support.
pub open spec fn best_version(ours: Seq<u32>, theirs: Seq<u32>, v: u32) -> bool {
    common_version(ours, theirs, v) && forall|u: u32| common_version(ours, theirs, u) ==> u <= v
}

/// The version that the two sides settle on: the greatest that both
/// support, if there is any.
pub open spec fn spec_negotiate(ours: Seq<u32>, theirs: Seq<u32>) -> Option<u32> {
    if exists|v: u32| common_version(ours, theirs, v) {
        Some(choose|v: u32| best_version(ours, theirs, v))
    } else {
        None
    }
}

fn list_has(list: &Vec<u32>, v: u32) -> (r: bool)
    ensures
        r == list@.contains(v),
{
    let mut i: usize = 0;
    while i < list.len()
        invariant
            i <= list@.len(),
            forall|j: int| 0 <= j < i ==> list@[j] != v,
        decreases list@.len() - i,
    {
        if list[i] == v {
            return true;
        }
        i += 1;
    }
    false
}

/// The version that the two sides settle on.
pub fn negotiate(ours: &Vec<u32>, theirs: &Vec<u32>) -> (r: Option<u32>)
    ensures
        r == spec_negotiate(ours@, theirs@),
        r matches Some(v) ==> best_version(ours@, theirs@, v),
        r is None ==> forall|v: u32| !common_version(ours@, theirs@, v),
{
    let mut best: Option<u32> = None;
    let mut i: usize = 0;
    while i < ours.len()
        invariant
            i <= ours@.len(),
            best matches Some(b) ==> common_version(ours@, theirs@, b),
            forall|j: int|
                0 <= j < i && theirs@.contains(#[trigger] ours@[j]) ==> best is Some && ours@[j]
                    <= best->Some_0,
        decreases ours@.len() - i,
    {
        let v = ours[i];
        if list_has(theirs, v) {
            let better = match best {
                None => true,
                Some(b) => b < v,
            };
            if better {
                best = Some(v);
            }
        }
        i += 1;
    }
    proof {
        match best {
            Some(b) => {
                assert forall|u: u32| common_version(ours@, theirs@, u) implies u <= b by {
                    let j = choose|j: int| 0 <= j < ours@.len() && ours@[j] == u;
                    assert(theirs@.contains(ours@[j]));
                }
                assert(best_version(ours@, theirs@, b));
                let c = choose|v: u32| best_version(ours@, theirs@, v);
                assert(c <= b && b <= c);
            },
            None => {
                assert forall|u: u32| !common_version(ours@, theirs@, u) by {
                    if common_version(ours@, theirs@, u) {
                        let j = choose|j: int| 0 <= j < ours@.len() && ours@[j] == u;
                        assert(theirs@.contains(ours@[j]));
                    }
                }
            },
        }
    }
    best
}

/// What a node knows of one peer.
#[derive(Clone, Debug)]
pub struct PeerDescriptor {
    address: Address,
    direction: Direction,
    state: SessionState,
    name: Option<String>,
    domains: Vec<String>,
    version: Option<u32>,
    last_activity: i64,
    last_ping: i64,
    reason: Option<CloseReason>,
}

/// The model of a descriptor.
pub struct PeerView {
    pub address: Address,
    pub direction: Direction,
    pub state: SessionState,
    pub name: Option<Seq<char>>,
    pub domains: Seq<Seq<char>>,
    pub version: Option<u32>,
    pub last_activity: i64,
    pub last_ping: i64,
    pub reason: Option<CloseReason>,
}

/// The model of an optional name.
pub open spec fn name_view(name: Option<String>) -> Option<Seq<char>> {
    match name {
        Some(s) => Some(s@),
        None => None,
    }
}

/// The model of a list of names.
pub open spec fn names_view(names: Vec<String>) -> Seq<Seq<char>> {
    Seq::new(names@.len(), |i: int| names@[i]@)
}

impl View for PeerDescriptor {
    type V = PeerView;

    closed spec fn view(&self) -> PeerView {
        PeerView {
            address: self.address,
            direction: self.direction,
            state: self.state,
            name: name_view(self.name),
            domains: names_view(self.domains),
            version: self.version,
            last_activity: self.last_activity,
            last_ping: self.last_ping,
            reason: self.reason,
        }
    }
}

impl PeerView {
    /// Whether the session is under way: neither closing nor closed.
    pub open spec fn live(self) -> bool {
        self.state == SessionState::Connecting || self.state == SessionState::Handshaking
            || self.state == SessionState::Established
    }

    /// The descriptor moved to `state` at time `now`.
    pub open spec fn moved(self, state: SessionState, now: i64) -> PeerView {
        PeerView { state, last_activity: now, ..self }
    }

    /// The descriptor on its way out for `reason`.
    pub open spec fn closing(self, now: i64, reason: CloseReason) -> PeerView {
        PeerView { reason: Some(reason), ..self.moved(SessionState::Closing, now) }
    }

    /// The reason that a closed session reports: the one it was closing
    /// for, or a transport error where it was not closing.
    pub open spec fn final_reason(self) -> CloseReason {
        match self.reason {
            Some(r) => r,
            None => CloseReason::TransportError,
        }
    }

    /// The descriptor of a session that has ended.
    pub open spec fn closed(self, now: i64) -> PeerView {
        PeerView { reason: Some(self.final_reason()), ..self.moved(SessionState::Closed, now) }
    }

    /// The descriptor and the action after an event that ends a live
    /// session for `reason`.
    pub open spec fn fail(self, now: i64, reason: CloseReason) -> (PeerView, SessionAction) {
        (self.closing(now, reason), SessionAction::Disconnect)
    }

    /// The descriptor and the action after the peer's greeting.
    pub open spec fn greeted(
        self,
        now: i64,
        name: Option<Seq<char>>,
        theirs: Seq<u32>,
        domains: Seq<Seq<char>>,
        ours: Seq<u32>,
    ) -> (PeerView, SessionAction) {
        match spec_negotiate(ours, theirs) {
            Some(v) => (
                PeerView {
                    name,
                    domains,
                    version: Some(v),
                    ..self.moved(SessionState::Established, now)
                },
                SessionAction::NotifyConnected,
            ),
            None => (
                PeerView {
                    reason: Some(CloseReason::VersionMismatch),
                    ..self.moved(SessionState::Closed, now)
                },
                SessionAction::NotifyClosed(CloseReason::VersionMismatch),
            ),
        }
    }

    /// The descriptor and the action after time has passed.
    pub open spec fn ticked(self, now: i64, idle_timeout_ms: i64, ping_interval_ms: i64) -> (
        PeerView,
        SessionAction,
    ) {
        if self.state != SessionState::Established {
            (self, SessionAction::Idle)
        } else if now - self.last_activity >= idle_timeout_ms {
            self.fail(now, CloseReason::Timeout)
        } else if now - self.last_activity >= ping_interval_ms && now - self.last_ping
            >= ping_interval_ms {
            (PeerView { last_ping: now, ..self }, SessionAction::SendPing)
        } else {
            (self, SessionAction::Idle)
        }
    }

    /// The descriptor and the action after `event` at time `now`.
    pub open spec fn step(self, now: i64, event: SessionEvent, config: SessionConfig) -> (
        PeerView,
        SessionAction,
    ) {
        if self.state == SessionState::Closed {
            (self, SessionAction::Idle)
        } else {
            match event {
                SessionEvent::TransportClosed => (
                    self.closed(now),
                    SessionAction::NotifyClosed(self.final_reason()),
                ),
                SessionEvent::TransportFailed => if self.state == SessionState::Closing {
                    (self.closed(now), SessionAction::NotifyClosed(self.final_reason()))
                } else {
                    self.fail(now, CloseReason::TransportError)
                },
                _ => if self.state == SessionState::Closing {
                    (self, SessionAction::Idle)
                } else {
                    match event {
                        SessionEvent::Connected => if self.state == SessionState::Connecting {
                            (self.moved(SessionState::Handshaking, now), SessionAction::SendHello)
                        } else {
                            (self, SessionAction::Idle)
                        },
                        SessionEvent::Hello { name, versions, domains } => if self.state
                            == SessionState::Handshaking {
                            self.greeted(
                                now,
                                name_view(name),
                                versions@,
                                names_view(domains),
                                config.versions@,
                            )
                        } else if self.state == SessionState::Established {
                            self.fail(now, CloseReason::ProtocolViolation)
                        } else {
                            (self, SessionAction::Idle)
                        },
                        SessionEvent::Traffic => if self.state == SessionState::Connecting {
                            (self, SessionAction::Idle)
                        } else {
                            (PeerView { last_activity: now, ..self }, SessionAction::Idle)
                        },
                        SessionEvent::Tick => self.ticked(
                            now,
                            config.idle_timeout_ms,
                            config.ping_interval_ms,
                        ),
                        SessionEvent::Violation => self.fail(now, CloseReason::ProtocolViolation),
                        SessionEvent::ResponseOverdue => self.fail(now, CloseReason::Timeout),
                        SessionEvent::Close => self.fail(now, CloseReason::Shutdown),
                        _ => (self, SessionAction::Idle),
                    }
                },
            }
        }
    }
}

/// The descriptor and the actions after a run of events, each with its
/// time.
pub open spec fn run(p: PeerView, events: Seq<(i64, SessionEvent)>, config: SessionConfig) -> (
    PeerView,
    Seq<SessionAction>,
)
    decreases events.len(),
{
    if events.len() == 0 {
        (p, Seq::empty())
    } else {
        let (q, actions) = run(p, events.drop_last(), config);
        let (r, action) = q.step(events.last().0, events.last().1, config);
        (r, actions.push(action))
    }
}

/// Number of times that `actions` tell the host that the session is over.
pub open spec fn times_closed(actions: Seq<SessionAction>) -> nat
    decreases actions.len(),
{
    if actions.len() == 0 {
        0
    } else {
        times_closed(actions.drop_last()) + if actions.last() is NotifyClosed {
            1nat
        } else {
            0nat
        }
    }
}

/// Number of times that `actions` tell the host that the session is
/// established.
pub open spec fn times_connected(actions: Seq<SessionAction>) -> nat
    decreases actions.len(),
{
    if actions.len() == 0 {
        0
    } else {
        times_connected(actions.drop_last()) + if actions.last() == SessionAction::NotifyConnected {
            1nat
        } else {
            0nat
        }
    }
}

/// Whatever happens to a session that has not closed, the host is told
/// that it is over exactly once if it has closed and not at all if it has
/// not, each time with a reason whose text is not empty, and a closed
/// session keeps its reason.
pub proof fn lemma_closed_once(p: PeerView, events: Seq<(i64, SessionEvent)>, config: SessionConfig)
    requires
        p.state != SessionState::Closed,
    ensures
        ({
            let (q, actions) = run(p, events, config);
            &&& actions.len() == events.len()
            &&& times_closed(actions) == (if q.state == SessionState::Closed {
                1nat
            } else {
                0nat
            })
            &&& q.state == SessionState::Closed ==> q.reason is Some
            &&& forall|i: int|
                0 <= i < actions.len() ==> (#[trigger] actions[i] matches SessionAction::NotifyClosed(
                    reason,
                ) ==> reason.spec_text().len() > 0)
        }),
    decreases events.len(),
{
    reveal_strlit("timeout");
    reveal_strlit("transport error");
    reveal_strlit("version mismatch");
    reveal_strlit("protocol violation");
    reveal_strlit("shutdown");
    if events.len() > 0 {
        lemma_closed_once(p, events.drop_last(), config);
        let (q, actions) = run(p, events.drop_last(), config);
        let (r, action) = q.step(events.last().0, events.last().1, config);
        let all = actions.push(action);
        assert(all.drop_last() =~= actions);
        assert forall|i: int| 0 <= i < all.len() implies (#[trigger] all[i] matches SessionAction::NotifyClosed(
            reason,
        ) ==> reason.spec_text().len() > 0) by {
            if i < actions.len() {
                assert(all[i] == actions[i]);
            }
        }
    }
}

/// Whatever happens to a session that starts out dialling or greeting, the
/// host is told that it is established exactly once if a protocol version
/// was agreed on and not at all if none was.
pub proof fn lemma_connected_once(
    p: PeerView,
    events: Seq<(i64, SessionEvent)>,
    config: SessionConfig,
)
    requires
        p.state == SessionState::Connecting || p.state == SessionState::Handshaking,
        p.version is None,
    ensures
        ({
            let (q, actions) = run(p, events, config);
            &&& times_connected(actions) == (if q.version is Some {
                1nat
            } else {
                0nat
            })
            &&& q.state == SessionState::Established ==> q.version is Some
            &&& q.version is Some ==> q.state != SessionState::Connecting && q.state
                != SessionState::Handshaking
        }),
    decreases events.len(),
{
    if events.len() > 0 {
        lemma_connected_once(p, events.drop_last(), config);
        let (q, actions) = run(p, events.drop_last(), config);
        let (r, action) = q.step(events.last().0, events.last().1, config);
        assert(actions.push(action).drop_last() =~= actions);
    }
}

impl PeerDescriptor {
    /// The descriptor of a session that this side opens to `address`: the
    /// transport is being dialled.
    pub fn outbound(address: Address, now: i64) -> (p: PeerDescriptor)
        ensures
            p@ == Self::spec_new(address, Direction::Outbound, SessionState::Connecting, now),
    {
        let p = PeerDescriptor {
            address,
            direction: Direction::Outbound,
            state: SessionState::Connecting,
            name: None,
            domains: Vec::new(),
            version: None,
            last_activity: now,
            last_ping: now,
            reason: None,
        };
        assert(p@.domains =~= Seq::<Seq<char>>::empty());
        p
    }

    /// The descriptor of a session that the peer at `address` opened: the
    /// greetings are being exchanged.
    pub fn inbound(address: Address, now: i64) -> (p: PeerDescriptor)
        ensures
            p@ == Self::spec_new(address, Direction::Inbound, SessionState::Handshaking, now),
    {
        let p = PeerDescriptor {
            address,
            direction: Direction::Inbound,
            state: SessionState::Handshaking,
            name: None,
            domains: Vec::new(),
            version: None,
            last_activity: now,
            last_ping: now,
            reason: None,
        };
        assert(p@.domains =~= Seq::<Seq<char>>::empty());
        p
    }

    /// The model of a descriptor as it is made.
    pub open spec fn spec_new(
        address: Address,
        direction: Direction,
        state: SessionState,
        now: i64,
    ) -> PeerView {
        PeerView {
            address,
            direction,
            state,
            name: None,
            domains: Seq::empty(),
            version: None,
            last_activity: now,
            last_ping: now,
            reason: None,
        }
    }

    pub fn address(&self) -> (a: Address)
        ensures
            a == self@.address,
    {
        self.address
    }

    pub fn direction(&self) -> (d: Direction)
        ensures
            d == self@.direction,
    {
        self.direction
    }

    pub fn state(&self) -> (s: SessionState)
        ensures
            s == self@.state,
    {
        self.state
    }

    /// The name that the peer declared, if it declared one.
    pub fn name(&self) -> (n: Option<&str>)
        ensures
            n is Some <==> self@.name is Some,
            n matches Some(s) ==> Some(s@) == self@.name,
    {
        match &self.name {
            Some(s) => Some(s.as_str()),
            None => None,
        }
    }

    /// The protocol version that was agreed on, once the session has been
    /// established.
    pub fn version(&self) -> (v: Option<u32>)
        ensures
            v == self@.version,
    {
        self.version
    }

    /// The time of the last message of the peer or change of state.
    pub fn last_activity(&self) -> (t: i64)
        ensures
            t == self@.last_activity,
    {
        self.last_activity
    }

    /// Why the session is closing or has closed.
    pub fn reason(&self) -> (r: Option<CloseReason>)
        ensures
            r == self@.reason,
    {
        self.reason
    }

    /// Whether the session is under way: neither closing nor closed.
    pub fn is_live(&self) -> (r: bool)
        ensures
            r == self@.live(),
    {
        match self.state {
            SessionState::Connecting | SessionState::Handshaking | SessionState::Established => true,
            _ => false,
        }
    }

    fn fail(&mut self, now: i64, reason: CloseReason) -> (action: SessionAction)
        ensures
            (final(self)@, action) == old(self)@.fail(now, reason),
    {
        self.state = SessionState::Closing;
        self.last_activity = now;
        self.reason = Some(reason);
        SessionAction::Disconnect
    }

    fn finish(&mut self, now: i64) -> (action: SessionAction)
        ensures
            final(self)@ == old(self)@.closed(now),
            action == SessionAction::NotifyClosed(old(self)@.final_reason()),
    {
        let reason = match self.reason {
            Some(r) => r,
            None => CloseReason::TransportError,
        };
        self.state = SessionState::Closed;
        self.last_activity = now;
        self.reason = Some(reason);
        SessionAction::NotifyClosed(reason)
    }

    fn tick(&mut self, now: i64, config: &SessionConfig) -> (action: SessionAction)
        ensures
            (final(self)@, action) == old(self)@.ticked(
                now,
                config.idle_timeout_ms,
                config.ping_interval_ms,
            ),
    {
        if self.state != SessionState::Established {
            return SessionAction::Idle;
        }
        let idle: i128 = now as i128 - self.last_activity as i128;
        let since_ping: i128 = now as i128 - self.last_ping as i128;
        if idle >= config.idle_timeout_ms as i128 {
            self.fail(now, CloseReason::Timeout)
        } else if idle >= config.ping_interval_ms as i128 && since_ping
            >= config.ping_interval_ms as i128 {
            self.last_ping = now;
            SessionAction::SendPing
        } else {
            SessionAction::Idle
        }
    }

    /// Takes the descriptor through `event`, which happened at time `now`,
    /// and says what is to be done.
    pub fn step(&mut self, now: i64, event: SessionEvent, config: &SessionConfig) -> (action:
        SessionAction)
        ensures
            (final(self)@, action) == old(self)@.step(now, event, *config),
    {
        if self.state == SessionState::Closed {
            return SessionAction::Idle;
        }
        match event {
            SessionEvent::TransportClosed => self.finish(now),
            SessionEvent::TransportFailed => {
                if self.state == SessionState::Closing {
                    self.finish(now)
                } else {
                    self.fail(now, CloseReason::TransportError)
                }
            },
            other => {
                if self.state == SessionState::Closing {
                    return SessionAction::Idle;
                }
                match other {
                    SessionEvent::Connected => {
                        if self.state == SessionState::Connecting {
                            self.state = SessionState::Handshaking;
                            self.last_activity = now;
                            SessionAction::SendHello
                        } else {
                            SessionAction::Idle
                        }
                    },
                    SessionEvent::Hello { name, versions, domains } => {
                        if self.state == SessionState::Handshaking {
                            match negotiate(&config.versions, &versions) {
                                Some(v) => {
                                    self.state = SessionState::Established;
                                    self.last_activity = now;
                                    self.name = name;
                                    self.domains = domains;
                                    self.version = Some(v);
                                    SessionAction::NotifyConnected
                                },
                                None => {
                                    self.state = SessionState::Closed;
                                    self.last_activity = now;
                                    self.reason = Some(CloseReason::VersionMismatch);
                                    SessionAction::NotifyClosed(CloseReason::VersionMismatch)
                                },
                            }
                        } else if self.state == SessionState::Established {
                            self.fail(now, CloseReason::ProtocolViolation)
                        } else {
                            SessionAction::Idle
                        }
                    },
                    SessionEvent::Traffic => {
                        if self.state != SessionState::Connecting {
                            self.last_activity = now;
                        }
                        SessionAction::Idle
                    },
                    SessionEvent::Tick => self.tick(now, config),
                    SessionEvent::Violation => self.fail(now, CloseReason::ProtocolViolation),
                    SessionEvent::ResponseOverdue => self.fail(now, CloseReason::Timeout),
                    SessionEvent::Close => self.fail(now, CloseReason::Shutdown),
                    _ => SessionAction::Idle,
                }
            },
        }
    }
}

} // verus!
