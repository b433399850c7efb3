//! A node: a store, the peers it knows, and the scheduler of their
//! reconciliations, kept in step.
//!
//! The scheduler holds lanes for exactly the sessions that are established.
//! A session that leaves that state loses its lanes at once, with whatever
//! comparisons were under way in them.

use crate::cursor::Cursor;
use crate::key::Key;
use crate::peers::{
    distinct, established_count, known, place_of, PeerConfig, PeerEntry, PeerTable, Refusal,
};
use crate::scheduler::{
    seat_of, seated, Grant, Lane, Phase, Scheduler, SchedulerConfig, SchedulerView, SeatView,
};
use crate::reconcile::{
    marks, reconcile_turn, spec_clamp, turn_outcome, ReconcileConfig, ReconcileError, TurnReport,
};
use crate::service::{answer, answers, Request, Response};
use crate::session::{Address, SessionAction, SessionEvent, SessionState};
use crate::store::{MemoryStore, StoreResult};
use vstd::prelude::*;

verus! {

/// The settings of a node.
#[derive(Clone, Debug)]
pub struct NodeConfig {
    pub peers: PeerConfig,
    pub scheduler: SchedulerConfig,
}

/// The state of the session to `address`, if the table knows the address.
pub open spec fn state_at(entries: Seq<PeerEntry>, address: Address) -> Option<SessionState> {
    if known(entries, address) {
        Some(entries[place_of(entries, address)].peer.state)
    } else {
        None
    }
}

/// The scheduler after the session to `address` has come to `state`: a
/// session that is established has a lane, which it gets at the end of the
/// round if it had none, and any other session has none.
pub open spec fn lanes_after(
    view: SchedulerView,
    state: Option<SessionState>,
    address: Address,
) -> SchedulerView {
    match state {
        Some(SessionState::Established) => if seated(view.seats, address) {
            view
        } else {
            SchedulerView {
                seats: view.seats.push(
                    SeatView {
                        address,
                        lanes: Seq::new(1, |i: int| Lane { phase: Phase::Active, busy: false }),
                        next_lane: 0,
                    },
                ),
                ..view
            }
        },
        Some(_) => if seated(view.seats, address) {
            SchedulerView {
                seats: view.seats.remove(seat_of(view.seats, address)),
                next_seat: if view.next_seat < view.seats.len() - 1 {
                    view.next_seat
                } else {
                    0
                },
            }
        } else {
            view
        },
        None => view,
    }
}

/// Whether the scheduler holds lanes for exactly the established sessions.
pub open spec fn lanes_match(entries: Seq<PeerEntry>, seats: Seq<SeatView>) -> bool {
    forall|a: Address|
        #![trigger seated(seats, a)]
        #![trigger state_at(entries, a)]
        seated(seats, a) <==> state_at(entries, a) == Some(SessionState::Established)
}

proof fn lemma_state_at(entries: Seq<PeerEntry>, i: int)
    requires
        distinct(entries),
        0 <= i < entries.len(),
    ensures
        state_at(entries, entries[i].peer.address) == Some(entries[i].peer.state),
{
    let a = entries[i].peer.address;
    assert(known(entries, a));
    let j = place_of(entries, a);
    if j < i {
        assert(entries[j].peer.address != entries[i].peer.address);
    }
    if i < j {
        assert(entries[i].peer.address != entries[j].peer.address);
    }
}

/// Replacing the entry of an address changes the state of that address and
/// of no other.
proof fn lemma_state_update(entries: Seq<PeerEntry>, i: int, e: PeerEntry, a: Address)
    requires
        distinct(entries),
        0 <= i < entries.len(),
        e.peer.address == entries[i].peer.address,
    ensures
        distinct(entries.update(i, e)),
        state_at(entries.update(i, e), a) == (if a == e.peer.address {
            Some(e.peer.state)
        } else {
            state_at(entries, a)
        }),
{
    let after = entries.update(i, e);
    assert forall|x: int, y: int| 0 <= x < y < after.len() implies (#[trigger] after[x]).peer.address
        != (#[trigger] after[y]).peer.address by {
        assert(entries[x].peer.address != entries[y].peer.address);
    }
    if a == e.peer.address {
        lemma_state_at(after, i);
    } else {
        if known(entries, a) {
            let j = place_of(entries, a);
            assert(after[j] == entries[j]);
            lemma_state_at(after, j);
        }
        if known(after, a) {
            let j = place_of(after, a);
            assert(after[j] == entries[j]);
            lemma_state_at(entries, j);
        }
    }
}

/// Adding an entry for a new address sets the state of that address and of
/// no other.
proof fn lemma_state_push(entries: Seq<PeerEntry>, e: PeerEntry, a: Address)
    requires
        distinct(entries),
        !known(entries, e.peer.address),
    ensures
        distinct(entries.push(e)),
        state_at(entries.push(e), a) == (if a == e.peer.address {
            Some(e.peer.state)
        } else {
            state_at(entries, a)
        }),
{
    let after = entries.push(e);
    assert forall|x: int, y: int| 0 <= x < y < after.len() implies (#[trigger] after[x]).peer.address
        != (#[trigger] after[y]).peer.address by {
        if y < entries.len() {
            assert(entries[x].peer.address != entries[y].peer.address);
        } else {
            assert(entries[x].peer.address != e.peer.address);
        }
    }
    if a == e.peer.address {
        lemma_state_at(after, entries.len() as int);
    } else {
        if known(entries, a) {
            let j = place_of(entries, a);
            assert(after[j] == entries[j]);
            lemma_state_at(after, j);
        }
        if known(after, a) {
            let j = place_of(after, a);
            assert(after[j] == entries[j]);
            lemma_state_at(entries, j);
        }
    }
}

/// A new session in the table sets the state of its address and of no
/// other.
proof fn lemma_state_with_session(
    entries: Seq<PeerEntry>,
    peer: crate::session::PeerView,
    now: i64,
    a: Address,
)
    requires
        distinct(entries),
    ensures
        state_at(PeerTable::with_session(entries, peer, now), a) == (if a == peer.address {
            Some(peer.state)
        } else {
            state_at(entries, a)
        }),
{
    if known(entries, peer.address) {
        let i = place_of(entries, peer.address);
        lemma_state_update(entries, i, PeerEntry { peer, ..entries[i] }, a);
    } else {
        lemma_state_push(entries, PeerEntry { peer, failures: 0, retry_at: now }, a);
    }
}

/// A seat at the end is the seat of its address and of no other.
proof fn lemma_seated_push(seats: Seq<SeatView>, seat: SeatView, a: Address)
    ensures
        seated(seats.push(seat), a) <==> seated(seats, a) || a == seat.address,
{
    let after = seats.push(seat);
    if seated(after, a) {
        let i = seat_of(after, a);
        if i < seats.len() {
            assert(seats[i].address == a);
        }
    }
    if seated(seats, a) {
        let i = seat_of(seats, a);
        assert(after[i].address == a);
    }
    if a == seat.address {
        assert(after[seats.len() as int].address == a);
    }
}

/// Taking a seat out takes out the seat of its address and of no other.
proof fn lemma_seated_remove(seats: Seq<SeatView>, i: int, a: Address)
    requires
        0 <= i < seats.len(),
        forall|x: int, y: int|
            0 <= x < y < seats.len() ==> (#[trigger] seats[x]).address != (
            #[trigger] seats[y]).address,
    ensures
        seated(seats.remove(i), a) <==> seated(seats, a) && a != seats[i].address,
{
    let after = seats.remove(i);
    if seated(after, a) {
        let j = seat_of(after, a);
        let j0 = if j < i {
            j
        } else {
            j + 1
        };
        assert(seats[j0].address == a);
        if j0 < i {
            assert(seats[j0].address != seats[i].address);
        } else {
            assert(seats[i].address != seats[j0].address);
        }
    }
    if seated(seats, a) && a != seats[i].address {
        let j = seat_of(seats, a);
        let j1 = if j < i {
            j
        } else {
            j - 1
        };
        assert(after[j1].address == a);
    }
}

/// Seats with the same addresses seat the same sessions.
proof fn lemma_seated_same(seats: Seq<SeatView>, other: Seq<SeatView>, a: Address)
    requires
        seats.len() == other.len(),
        forall|i: int| 0 <= i < seats.len() ==> (#[trigger] seats[i]).address == other[i].address,
    ensures
        seated(seats, a) <==> seated(other, a),
{
    if seated(seats, a) {
        let i = seat_of(seats, a);
        assert(other[i].address == a);
    }
    if seated(other, a) {
        let i = seat_of(other, a);
        assert(seats[i].address == other[i].address);
    }
}

/// A node.
pub struct Node {
    store: MemoryStore,
    peers: PeerTable,
    scheduler: Scheduler,
}

impl Node {
    /// The store of the node.
    pub closed spec fn spec_store(&self) -> MemoryStore {
        self.store
    }

    /// The peers that the node knows.
    pub closed spec fn spec_peers(&self) -> PeerTable {
        self.peers
    }

    /// The scheduler of the node.
    pub closed spec fn spec_scheduler(&self) -> Scheduler {
        self.scheduler
    }

    /// The parts of the node are in order, and the scheduler holds lanes
    /// for exactly the established sessions.
    pub open spec fn wf(&self) -> bool {
        &&& self.spec_store().wf()
        &&& self.spec_peers().wf()
        &&& self.spec_scheduler().wf()
        &&& lanes_match(self.spec_peers()@, self.spec_scheduler()@.seats)
    }

    /// A node with the given store that knows no peer.
    pub fn new(store: MemoryStore, config: NodeConfig) -> (node: Node)
        requires
            store.wf(),
        ensures
            node.wf(),
            node.spec_store() == store,
            node.spec_peers()@ == Seq::<PeerEntry>::empty(),
            node.spec_peers().spec_config() == config.peers,
            node.spec_scheduler()@.seats == Seq::<SeatView>::empty(),
            node.spec_scheduler().spec_config() == config.scheduler,
    {
        let node = Node {
            store,
            peers: PeerTable::new(config.peers),
            scheduler: Scheduler::new(config.scheduler),
        };
        proof {
            assert forall|a: Address|
                #![trigger seated(node.scheduler@.seats, a)]
                #![trigger state_at(node.peers@, a)]
                seated(node.scheduler@.seats, a) <==> state_at(node.peers@, a) == Some(
                    SessionState::Established,
                ) by {}
        }
        node
    }

    /// Number of established sessions.
    pub fn connection_count(&self) -> (n: usize)
        ensures
            n == established_count(self.spec_peers()@),
    {
        self.peers.connection_count()
    }

    /// The store of the node.
    pub fn store(&self) -> (s: &MemoryStore)
        ensures
            *s == self.spec_store(),
    {
        &self.store
    }

    /// The peers that the node knows.
    pub fn peers(&self) -> (p: &PeerTable)
        ensures
            *p == self.spec_peers(),
    {
        &self.peers
    }

    /// Stores a record of the node's own at time `now`.
    pub fn put(&mut self, now: i64, key: &Key, value: &[u8]) -> (r: StoreResult)
        requires
            old(self).wf(),
        ensures
            final(self).wf(),
            final(self).spec_peers() == old(self).spec_peers(),
            final(self).spec_scheduler() == old(self).spec_scheduler(),
            r == old(self).spec_store().spec_store_result(key@, value@),
            final(self).spec_store()@ == old(self).spec_store().spec_store(now, key@, value@),
            final(self).spec_store().spec_domain() == old(self).spec_store().spec_domain(),
            final(self).spec_store().spec_max_value_size() == old(
                self,
            ).spec_store().spec_max_value_size(),
    {
        self.store.store(now, key, value)
    }

    /// Opens a session to `address`; see `PeerTable::begin_dial`.
    pub fn dial(&mut self, address: Address, now: i64) -> (r: Result<(), Refusal>)
        requires
            old(self).wf(),
        ensures
            final(self).wf(),
            final(self).spec_store() == old(self).spec_store(),
            final(self).spec_scheduler() == old(self).spec_scheduler(),
            final(self).spec_peers().spec_config() == old(self).spec_peers().spec_config(),
            r is Ok <==> crate::peers::may_dial(old(self).spec_peers()@, address, now),
            r is Err ==> final(self).spec_peers()@ == old(self).spec_peers()@,
            r is Ok ==> final(self).spec_peers()@ == PeerTable::with_session(
                old(self).spec_peers()@,
                crate::session::PeerDescriptor::spec_new(
                    address,
                    crate::session::Direction::Outbound,
                    SessionState::Connecting,
                    now,
                ),
                now,
            ),
    {
        let ghost before = self.peers@;
        let r = self.peers.begin_dial(address, now);
        proof {
            if r is Ok {
                let peer = crate::session::PeerDescriptor::spec_new(
                    address,
                    crate::session::Direction::Outbound,
                    SessionState::Connecting,
                    now,
                );
                self.lemma_new_session(before, peer, now);
            }
        }
        r
    }

    /// Takes a connection from `address`; see `PeerTable::accept`.
    pub fn accept(&mut self, address: Address, now: i64) -> (r: Result<SessionAction, Refusal>)
        requires
            old(self).wf(),
        ensures
            final(self).wf(),
            final(self).spec_store() == old(self).spec_store(),
            final(self).spec_scheduler() == old(self).spec_scheduler(),
            final(self).spec_peers().spec_config() == old(self).spec_peers().spec_config(),
            r == PeerTable::spec_accept(
                old(self).spec_peers()@,
                old(self).spec_peers().spec_config().max_sessions,
                address,
            ),
            r is Err ==> final(self).spec_peers()@ == old(self).spec_peers()@,
            r is Ok ==> final(self).spec_peers()@ == PeerTable::with_session(
                old(self).spec_peers()@,
                crate::session::PeerDescriptor::spec_new(
                    address,
                    crate::session::Direction::Inbound,
                    SessionState::Handshaking,
                    now,
                ),
                now,
            ),
    {
        let ghost before = self.peers@;
        let r = self.peers.accept(address, now);
        proof {
            if r is Ok {
                let peer = crate::session::PeerDescriptor::spec_new(
                    address,
                    crate::session::Direction::Inbound,
                    SessionState::Handshaking,
                    now,
                );
                self.lemma_new_session(before, peer, now);
            }
        }
        r
    }

    /// A session that is not established, put in the place of one that
    /// was not, leaves the lanes in step.
    proof fn lemma_new_session(&self, before: Seq<PeerEntry>, peer: crate::session::PeerView, now: i64)
        requires
            distinct(before),
            lanes_match(before, self.scheduler@.seats),
            state_at(before, peer.address) != Some(SessionState::Established),
            peer.state != SessionState::Established,
            self.peers@ == PeerTable::with_session(before, peer, now),
        ensures
            lanes_match(self.peers@, self.scheduler@.seats),
    {
        let seats = self.scheduler@.seats;
        assert forall|a: Address|
            #![trigger seated(seats, a)]
            #![trigger state_at(self.peers@, a)]
            seated(seats, a) <==> state_at(self.peers@, a) == Some(SessionState::Established) by {
            lemma_state_with_session(before, peer, now, a);
            assert(seated(seats, a) <==> state_at(before, a) == Some(SessionState::Established));
        }
    }

    /// Takes the session to `address` through `event`, which happened at
    /// time `now`, and says what is to be done; see `PeerTable::handle`.
    /// A session that becomes established gets a lane in the scheduler,
    /// and one that leaves that state loses it.
    pub fn handle(&mut self, address: &Address, now: i64, event: SessionEvent) -> (action:
        SessionAction)
        requires
            old(self).wf(),
        ensures
            final(self).wf(),
            final(self).spec_store() == old(self).spec_store(),
            final(self).spec_peers().spec_config() == old(self).spec_peers().spec_config(),
            final(self).spec_scheduler().spec_config() == old(self).spec_scheduler().spec_config(),
            (final(self).spec_peers()@, action) == PeerTable::spec_handle(
                old(self).spec_peers()@,
                old(self).spec_peers().spec_config(),
                *address,
                now,
                event,
            ),
            final(self).spec_scheduler()@ == lanes_after(
                old(self).spec_scheduler()@,
                state_at(final(self).spec_peers()@, *address),
                *address,
            ),
    {
        let ghost before = self.peers@;
        let ghost seats = self.scheduler@.seats;
        let action = self.peers.handle(address, now, event);
        let state = self.peers.state_of(address);
        proof {
            if known(before, *address) {
                let i = place_of(before, *address);
                assert forall|a: Address| state_at(self.peers@, a) == (if a == *address {
                    state_at(self.peers@, *address)
                } else {
                    state_at(before, a)
                }) by {
                    lemma_state_update(before, i, self.peers@[i], a);
                }
            }
        }
        match state {
            Some(SessionState::Established) => {
                self.scheduler.add_session(*address, 1);
                proof {
                    let after = self.scheduler@.seats;
                    assert forall|a: Address|
                        #![trigger seated(after, a)]
                        #![trigger state_at(self.peers@, a)]
                        seated(after, a) <==> state_at(self.peers@, a) == Some(
                            SessionState::Established,
                        ) by {
                        assert(seated(seats, a) <==> state_at(before, a) == Some(
                            SessionState::Established,
                        ));
                        if !seated(seats, *address) {
                            lemma_seated_push(seats, after[seats.len() as int], a);
                            assert(after =~= seats.push(after[seats.len() as int]));
                        }
                    }
                }
            },
            Some(_) => {
                self.scheduler.remove_session(address);
                proof {
                    let after = self.scheduler@.seats;
                    assert forall|a: Address|
                        #![trigger seated(after, a)]
                        #![trigger state_at(self.peers@, a)]
                        seated(after, a) <==> state_at(self.peers@, a) == Some(
                            SessionState::Established,
                        ) by {
                        assert(seated(seats, a) <==> state_at(before, a) == Some(
                            SessionState::Established,
                        ));
                        if seated(seats, *address) {
                            lemma_seated_remove(seats, seat_of(seats, *address), a);
                        }
                    }
                }
            },
            None => {
                proof {
                    assert(self.peers@ == before);
                }
            },
        }
        action
    }

    /// Answers `request` of the peer at `address` at time `now`. A request
    /// of a peer whose session is not established, or one that breaks the
    /// protocol, is not answered, leaves the store as it was, and ends the
    /// session; any other request counts as a sign of life.
    pub fn serve(&mut self, address: &Address, now: i64, request: Request) -> (r: (
        Option<Response>,
        SessionAction,
    ))
        requires
            old(self).wf(),
        ensures
            final(self).wf(),
            final(self).spec_peers().spec_config() == old(self).spec_peers().spec_config(),
            final(self).spec_store().spec_domain() == old(self).spec_store().spec_domain(),
            final(self).spec_store().spec_max_value_size() == old(
                self,
            ).spec_store().spec_max_value_size(),
            final(self).spec_scheduler()@ == lanes_after(
                old(self).spec_scheduler()@,
                state_at(final(self).spec_peers()@, *address),
                *address,
            ),
            ({
                let refused = state_at(old(self).spec_peers()@, *address) != Some(
                    SessionState::Established,
                ) || request.breaks(
                    old(self).spec_store().spec_domain(),
                    old(self).spec_store().spec_max_value_size(),
                );
                &&& refused ==> r.0 is None && final(self).spec_store()@ == old(self).spec_store()@
                    && (final(self).spec_peers()@, r.1) == PeerTable::spec_handle(
                    old(self).spec_peers()@,
                    old(self).spec_peers().spec_config(),
                    *address,
                    now,
                    SessionEvent::Violation,
                )
                &&& !refused ==> answers(
                    &old(self).spec_store(),
                    &final(self).spec_store(),
                    now,
                    request,
                    r.0,
                ) && (final(self).spec_peers()@, r.1) == PeerTable::spec_handle(
                    old(self).spec_peers()@,
                    old(self).spec_peers().spec_config(),
                    *address,
                    now,
                    SessionEvent::Traffic,
                )
            }),
    {
        let answered = match self.peers.state_of(address) {
            Some(SessionState::Established) => match answer(&mut self.store, now, request) {
                Ok(response) => Some(response),
                Err(_) => None,
            },
            _ => None,
        };
        match answered {
            Some(response) => {
                let action = self.handle(address, now, SessionEvent::Traffic);
                (response, action)
            },
            None => {
                let action = self.handle(address, now, SessionEvent::Violation);
                (None, action)
            },
        }
    }

    /// One turn of the reconciliation of this node's store with the store
    /// of `other`; see `reconcile_turn`.
    pub fn reconcile_with(
        &mut self,
        other: &mut Node,
        cursor: &mut Cursor,
        now: i64,
        remote_clock: i64,
        config: &ReconcileConfig,
    ) -> (r: Result<TurnReport, ReconcileError>)
        requires
            old(self).wf(),
            old(other).wf(),
            old(cursor).wf(),
        ensures
            final(self).wf(),
            final(other).wf(),
            final(cursor).wf(),
            final(self).spec_peers() == old(self).spec_peers(),
            final(self).spec_scheduler() == old(self).spec_scheduler(),
            final(other).spec_peers() == old(other).spec_peers(),
            final(other).spec_scheduler() == old(other).spec_scheduler(),
            final(cursor).spec_watermark() == old(cursor).spec_watermark(),
            final(self).spec_store().spec_domain() == old(self).spec_store().spec_domain(),
            final(other).spec_store().spec_domain() == old(other).spec_store().spec_domain(),
            final(self).spec_store().spec_max_value_size() == old(
                self,
            ).spec_store().spec_max_value_size(),
            final(other).spec_store().spec_max_value_size() == old(
                other,
            ).spec_store().spec_max_value_size(),
            r == Err::<TurnReport, ReconcileError>(ReconcileError::DomainMismatch) <==> old(
                self,
            ).spec_store().spec_domain() != old(other).spec_store().spec_domain(),
            r == Err::<TurnReport, ReconcileError>(ReconcileError::LimitMismatch) <==> old(
                self,
            ).spec_store().spec_domain() == old(other).spec_store().spec_domain() && old(
                self,
            ).spec_store().spec_max_value_size() != old(other).spec_store().spec_max_value_size(),
            r is Err ==> final(cursor).spans() == old(cursor).spans() && final(cursor).marked()
                == old(cursor).marked() && final(self).spec_store()@ == old(self).spec_store()@
                && final(other).spec_store()@ == old(other).spec_store()@,
            r is Ok ==> final(cursor).marked() == old(cursor).marked() + marks(
                old(cursor).spans(),
                old(self).spec_store()@,
                old(other).spec_store()@,
                spec_clamp(old(cursor).spec_watermark(), remote_clock),
                config.exact_threshold as nat,
                r->Ok_0.compared as nat,
            ),
            r matches Ok(report) ==> turn_outcome(
                old(cursor).spans(),
                final(cursor).spans(),
                old(self).spec_store()@,
                old(other).spec_store()@,
                final(self).spec_store()@,
                final(other).spec_store()@,
                spec_clamp(old(cursor).spec_watermark(), remote_clock),
                now,
                config.exact_threshold as nat,
                config.turn_budget,
                report,
            ),
    {
        reconcile_turn(cursor, &mut self.store, &mut other.store, now, remote_clock, config)
    }

    /// Grants the lane that is served next at time `now`; see
    /// `Scheduler::next`.
    pub fn next_grant(&mut self, now: i64) -> (r: Option<Grant>)
        requires
            old(self).wf(),
        ensures
            final(self).wf(),
            final(self).spec_store() == old(self).spec_store(),
            final(self).spec_peers() == old(self).spec_peers(),
            final(self).spec_scheduler().spec_config() == old(self).spec_scheduler().spec_config(),
            r is Some <==> crate::scheduler::choice(
                old(self).spec_scheduler()@,
                old(self).spec_scheduler().spec_config(),
                now,
            ) is Some,
            r is None ==> final(self).spec_scheduler()@ == old(self).spec_scheduler()@,
            r matches Some(grant) ==> {
                let (s, d, fresh) = crate::scheduler::choice(
                    old(self).spec_scheduler()@,
                    old(self).spec_scheduler().spec_config(),
                    now,
                )->Some_0;
                &&& grant.address == old(self).spec_scheduler()@.seats[s].address
                &&& grant.domain == d
                &&& grant.fresh == fresh
                &&& grant.budget == old(self).spec_scheduler().spec_config().turn_budget
                &&& final(self).spec_scheduler()@ == crate::scheduler::granted(
                    old(self).spec_scheduler()@,
                    s,
                    d,
                )
                &&& state_at(final(self).spec_peers()@, grant.address) == Some(
                    SessionState::Established,
                )
            },
    {
        let ghost seats = self.scheduler@.seats;
        let ghost view = self.scheduler@;
        let ghost config = self.scheduler.spec_config();
        let r = self.scheduler.next(now);
        proof {
            match r {
                Some(grant) => {
                    let (s, d, fresh) = crate::scheduler::choice(view, config, now)->Some_0;
                    crate::scheduler::lemma_choice(view, config, now);
                    let after = self.scheduler@.seats;
                    assert(seated(seats, grant.address)) by {
                        assert(seats[s].address == grant.address);
                    }
                    assert forall|a: Address|
                        #![trigger seated(after, a)]
                        #![trigger state_at(self.peers@, a)]
                        seated(after, a) <==> state_at(self.peers@, a) == Some(
                            SessionState::Established,
                        ) by {
                        lemma_seated_same(seats, after, a);
                        assert(seated(seats, a) <==> state_at(self.peers@, a) == Some(
                            SessionState::Established,
                        ));
                    }
                },
                None => {},
            }
        }
        r
    }

    /// Takes note that the range comparison of a lane has ended; see
    /// `Scheduler::complete`.
    pub fn complete(&mut self, address: &Address, domain: usize, converged: bool, now: i64) -> (done:
        bool)
        requires
            old(self).wf(),
        ensures
            final(self).wf(),
            final(self).spec_store() == old(self).spec_store(),
            final(self).spec_peers() == old(self).spec_peers(),
            final(self).spec_scheduler().spec_config() == old(self).spec_scheduler().spec_config(),
            done == Scheduler::is_busy(old(self).spec_scheduler()@, *address, domain),
            !done ==> final(self).spec_scheduler()@ == old(self).spec_scheduler()@,
            done ==> final(self).spec_scheduler()@ == Scheduler::released(
                old(self).spec_scheduler()@,
                seat_of(old(self).spec_scheduler()@.seats, *address),
                domain as int,
                Scheduler::phase_after(
                    converged,
                    now,
                    old(self).spec_scheduler().spec_config().idle_interval_ms,
                ),
            ),
    {
        let ghost seats = self.scheduler@.seats;
        let done = self.scheduler.complete(address, domain, converged, now);
        proof {
            if done {
                let after = self.scheduler@.seats;
                let s = seat_of(seats, *address);
                assert(0 <= s < seats.len());
                assert forall|a: Address|
                    #![trigger seated(after, a)]
                    #![trigger state_at(self.peers@, a)]
                    seated(after, a) <==> state_at(self.peers@, a) == Some(
                        SessionState::Established,
                    ) by {
                    lemma_seated_same(seats, after, a);
                    assert(seated(seats, a) <==> state_at(self.peers@, a) == Some(
                        SessionState::Established,
                    ));
                }
            }
        }
        done
    }
}

} // verus!
