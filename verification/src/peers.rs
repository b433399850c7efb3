//! The peers that a node knows, one descriptor to an address.
//!
//! The table decides which peers are dialled and which inbound connections
//! are taken. It keeps at most one session to an address, whichever side
//! opened it, and waits longer before each new attempt to reach a peer that
//! could not be reached.

use crate::range::pow2;
use crate::session::{
    Address, Direction, PeerDescriptor, PeerView, SessionAction, SessionConfig, SessionEvent,
    SessionState,
};
use vstd::prelude::*;

verus! {

/// The settings of a peer table.
#[derive(Clone, Debug)]
pub struct PeerConfig {
    /// Most sessions that may be under way at once.
    pub max_sessions: usize,
    /// Wait, in milliseconds, after the first failed attempt to reach a
    /// peer; it doubles with each further failure.
    pub backoff_base_ms: i64,
    /// Longest wait, in milliseconds, between two attempts.
    pub backoff_max_ms: i64,
    /// The settings of every session.
    pub session: SessionConfig,
}

/// Why a connection was not taken or not made.
#[derive(Clone, Copy, Debug, PartialEq, Eq, Structural)]
pub enum Refusal {
    /// A session to the address has not closed yet.
    Duplicate,
    /// As many sessions are under way as may be.
    LimitReached,
    /// The wait after the last failed attempt is not over.
    Backoff,
}

/// What the table holds for one address.
pub struct PeerEntry {
    pub peer: PeerView,
    /// Attempts to reach the peer that failed since a session with it was
    /// last established.
    pub failures: u32,
    /// The time before which the peer is not dialled again.
    pub retry_at: i64,
}

/// Whether no two entries have the same address.
pub open spec fn distinct(entries: Seq<PeerEntry>) -> bool {
    forall|i: int, j: int|
        0 <= i < j < entries.len() ==> (#[trigger] entries[i]).peer.address != (
        #[trigger] entries[j]).peer.address
}

/// Whether the table holds an entry for `address`.
pub open spec fn known(entries: Seq<PeerEntry>, address: Address) -> bool {
    exists|i: int| 0 <= i < entries.len() && (#[trigger] entries[i]).peer.address == address
}

/// The place of the entry for `address`.
pub open spec fn place_of(entries: Seq<PeerEntry>, address: Address) -> int {
    choose|i: int| 0 <= i < entries.len() && (#[trigger] entries[i]).peer.address == address
}

/// Number of sessions under way.
pub open spec fn live_count(entries: Seq<PeerEntry>) -> nat
    decreases entries.len(),
{
    if entries.len() == 0 {
        0
    } else {
        live_count(entries.drop_last()) + if entries.last().peer.live() {
            1nat
        } else {
            0nat
        }
    }
}

/// Number of established sessions.
pub open spec fn established_count(entries: Seq<PeerEntry>) -> nat
    decreases entries.len(),
{
    if entries.len() == 0 {
        0
    } else {
        established_count(entries.drop_last()) + if entries.last().peer.state
            == SessionState::Established {
            1nat
        } else {
            0nat
        }
    }
}

/// Whether a session to `address` may be opened at time `now`: none is
/// known that has not closed, and the wait after a failed attempt is over.
pub open spec fn may_dial(entries: Seq<PeerEntry>, address: Address, now: i64) -> bool {
    known(entries, address) ==> {
        let e = entries[place_of(entries, address)];
        e.peer.state == SessionState::Closed && now >= e.retry_at
    }
}

/// The wait after the given number of failed attempts in a row: the base
/// wait doubled with each failure after the first, at most the longest
/// wait, and never negative.
pub open spec fn backoff_delay(base: i64, max: i64, failures: u32) -> int {
    if failures == 0 || base <= 0 || max <= 0 {
        0
    } else if base * pow2((failures - 1) as nat) > max {
        max as int
    } else {
        base * pow2((failures - 1) as nat)
    }
}

/// The time `delay` after `now`, or the end of time where that lies beyond
/// it.
pub open spec fn time_after(now: i64, delay: int) -> i64 {
    if now + delay > i64::MAX {
        i64::MAX
    } else {
        (now + delay) as i64
    }
}

/// The entry after its session has gone from `before` to `after` at time
/// `now`. An outbound session that closes without having been established
/// counts as a failed attempt; an established session clears the count.
pub open spec fn entry_after(
    entry: PeerEntry,
    after: PeerView,
    now: i64,
    base: i64,
    max: i64,
) -> PeerEntry {
    let before = entry.peer;
    if after.state == SessionState::Established && before.state != SessionState::Established {
        PeerEntry { peer: after, failures: 0, retry_at: entry.retry_at }
    } else if after.state == SessionState::Closed && before.state != SessionState::Closed
        && after.direction == Direction::Outbound && after.version is None {
        let failures = if entry.failures == u32::MAX {
            u32::MAX
        } else {
            (entry.failures + 1) as u32
        };
        PeerEntry {
            peer: after,
            failures,
            retry_at: time_after(now, backoff_delay(base, max, failures)),
        }
    } else {
        PeerEntry { peer: after, ..entry }
    }
}

struct Slot {
    peer: PeerDescriptor,
    failures: u32,
    retry_at: i64,
}

spec fn slot_view(slot: Slot) -> PeerEntry {
    PeerEntry { peer: slot.peer@, failures: slot.failures, retry_at: slot.retry_at }
}

proof fn lemma_place(entries: Seq<PeerEntry>, i: int)
    requires
        distinct(entries),
        0 <= i < entries.len(),
    ensures
        known(entries, entries[i].peer.address),
        place_of(entries, entries[i].peer.address) == i,
{
    let a = entries[i].peer.address;
    assert(known(entries, a));
    let j = place_of(entries, a);
    if j < i {
        assert(entries[j].peer.address != entries[i].peer.address);
    }
    if i < j {
        assert(entries[i].peer.address != entries[j].peer.address);
    }
}

/// The wait after `failures` failed attempts in a row.
fn delay_after(base: i64, max: i64, failures: u32) -> (d: i64)
    ensures
        d == backoff_delay(base, max, failures),
        0 <= d,
{
    if failures == 0 || base <= 0 || max <= 0 {
        return 0;
    }
    if base > max {
        proof {
            lemma_pow2_positive((failures - 1) as nat);
            assert(base * pow2((failures - 1) as nat) >= base) by (nonlinear_arith)
                requires
                    base > 0,
                    pow2((failures - 1) as nat) >= 1,
            ;
        }
        return max;
    }
    let mut d: i64 = base;
    let mut k: u32 = 1;
    proof {
        assert(base * pow2(0) == base) by (nonlinear_arith)
            requires
                pow2(0) == 1,
        ;
    }
    while k < failures
        invariant
            1 <= k <= failures,
            0 < base <= max,
            0 < d <= max,
            d == base * pow2((k - 1) as nat),
        decreases failures - k,
    {
        proof {
            assert(pow2(k as nat) == 2 * pow2((k - 1) as nat));
            assert(base * pow2(k as nat) == 2 * d) by (nonlinear_arith)
                requires
                    pow2(k as nat) == 2 * pow2((k - 1) as nat),
                    d == base * pow2((k - 1) as nat),
            ;
        }
        if d > max - d {
            proof {
                lemma_pow2_grows(k as nat, (failures - 1) as nat);
                assert(base * pow2((failures - 1) as nat) >= base * pow2(k as nat))
                    by (nonlinear_arith)
                    requires
                        base > 0,
                        pow2((failures - 1) as nat) >= pow2(k as nat),
                ;
            }
            return max;
        }
        d = d + d;
        k = k + 1;
    }
    d
}

proof fn lemma_pow2_positive(n: nat)
    ensures
        pow2(n) >= 1,
    decreases n,
{
    if n > 0 {
        lemma_pow2_positive((n - 1) as nat);
    }
}

proof fn lemma_pow2_grows(a: nat, b: nat)
    requires
        a <= b,
    ensures
        pow2(a) <= pow2(b),
    decreases b - a,
{
    if a < b {
        lemma_pow2_grows(a, (b - 1) as nat);
        lemma_pow2_positive((b - 1) as nat);
    }
}

/// The time `delay` after `now`.
fn later(now: i64, delay: i64) -> (t: i64)
    requires
        0 <= delay,
    ensures
        t == time_after(now, delay as int),
{
    if now > i64::MAX - delay {
        i64::MAX
    } else {
        now + delay
    }
}

/// The peers that a node knows.
pub struct PeerTable {
    config: PeerConfig,
    slots: Vec<Slot>,
}

impl View for PeerTable {
    type V = Seq<PeerEntry>;

    /// The entries of the table, in the order in which their addresses
    /// became known.
    closed spec fn view(&self) -> Seq<PeerEntry> {
        Seq::new(self.slots@.len(), |i: int| slot_view(self.slots@[i]))
    }
}

impl PeerTable {
    /// No two entries of the table have the same address.
    pub open spec fn wf(&self) -> bool {
        distinct(self@)
    }

    /// The settings that the table was made with.
    pub closed spec fn spec_config(&self) -> PeerConfig {
        self.config
    }

    /// One session to an address. A table holds one entry for an address
    /// at most, so two sessions to the same address, one opened by each
    /// side, are never established at the same time.
    pub proof fn lemma_one_session_per_address(&self, i: int, j: int)
        requires
            self.wf(),
            0 <= i < self@.len(),
            0 <= j < self@.len(),
            i != j,
        ensures
            self@[i].peer.address != self@[j].peer.address,
            !(self@[i].peer.address == self@[j].peer.address && self@[i].peer.state
                == SessionState::Established && self@[j].peer.state == SessionState::Established),
    {
        if i < j {
            assert(self@[i].peer.address != self@[j].peer.address);
        } else {
            assert(self@[j].peer.address != self@[i].peer.address);
        }
    }

    /// A table that knows no peer.
    pub fn new(config: PeerConfig) -> (t: PeerTable)
        ensures
            t.wf(),
            t@ == Seq::<PeerEntry>::empty(),
            t.spec_config() == config,
    {
        let t = PeerTable { config, slots: Vec::new() };
        assert(t@ =~= Seq::<PeerEntry>::empty());
        t
    }

    /// Number of addresses that the table knows.
    pub fn len(&self) -> (n: usize)
        ensures
            n == self@.len(),
    {
        self.slots.len()
    }

    fn find(&self, address: &Address) -> (r: Option<usize>)
        requires
            self.wf(),
        ensures
            r is Some <==> known(self@, *address),
            r matches Some(i) ==> i == place_of(self@, *address) && i < self@.len() && self@[i as int].peer.address
                == *address,
    {
        let mut i: usize = 0;
        while i < self.slots.len()
            invariant
                i <= self.slots@.len(),
                self.wf(),
                forall|j: int| 0 <= j < i ==> (#[trigger] self@[j]).peer.address != *address,
            decreases self.slots@.len() - i,
        {
            let a = self.slots[i].peer.address();
            assert(self@[i as int].peer.address == a);
            if a.ip == address.ip && a.port == address.port {
                proof {
                    lemma_place(self@, i as int);
                }
                return Some(i);
            }
            i += 1;
        }
        None
    }

    /// The state of the session to `address`, if the table knows the
    /// address.
    pub fn state_of(&self, address: &Address) -> (r: Option<SessionState>)
        requires
            self.wf(),
        ensures
            r is Some <==> known(self@, *address),
            r matches Some(s) ==> s == self@[place_of(self@, *address)].peer.state,
    {
        match self.find(address) {
            Some(i) => {
                assert(self@[i as int].peer == self.slots@[i as int].peer@);
                Some(self.slots[i].peer.state())
            },
            None => None,
        }
    }

    /// Number of sessions under way.
    pub fn live_sessions(&self) -> (n: usize)
        ensures
            n == live_count(self@),
    {
        let mut n: usize = 0;
        let mut i: usize = 0;
        proof {
            assert(self@.take(0) =~= Seq::<PeerEntry>::empty());
        }
        while i < self.slots.len()
            invariant
                i <= self.slots@.len(),
                n <= i,
                n == live_count(self@.take(i as int)),
            decreases self.slots@.len() - i,
        {
            proof {
                assert(self@.take(i + 1).drop_last() =~= self@.take(i as int));
                assert(self@.take(i + 1).last() == slot_view(self.slots@[i as int]));
            }
            if self.slots[i].peer.is_live() {
                n += 1;
            }
            i += 1;
        }
        proof {
            assert(self@.take(i as int) =~= self@);
        }
        n
    }

    /// Number of established sessions.
    pub fn connection_count(&self) -> (n: usize)
        ensures
            n == established_count(self@),
    {
        let mut n: usize = 0;
        let mut i: usize = 0;
        proof {
            assert(self@.take(0) =~= Seq::<PeerEntry>::empty());
        }
        while i < self.slots.len()
            invariant
                i <= self.slots@.len(),
                n <= i,
                n == established_count(self@.take(i as int)),
            decreases self.slots@.len() - i,
        {
            proof {
                assert(self@.take(i + 1).drop_last() =~= self@.take(i as int));
                assert(self@.take(i + 1).last() == slot_view(self.slots@[i as int]));
            }
            if self.slots[i].peer.state() == SessionState::Established {
                n += 1;
            }
            i += 1;
        }
        proof {
            assert(self@.take(i as int) =~= self@);
        }
        n
    }

    /// Whether a session to `address` may be opened at time `now`.
    pub fn wants_dial(&self, address: &Address, now: i64) -> (r: bool)
        requires
            self.wf(),
        ensures
            r == may_dial(self@, *address, now),
    {
        match self.find(address) {
            None => true,
            Some(i) => {
                assert(self@[i as int] == slot_view(self.slots@[i as int]));
                self.slots[i].peer.state() == SessionState::Closed && now >= self.slots[i].retry_at
            },
        }
    }

    /// The addresses of `fixed` to which a session may be opened at time
    /// `now`, in the order of `fixed`.
    pub fn plan_dials(&self, fixed: &Vec<Address>, now: i64) -> (out: Vec<Address>)
        requires
            self.wf(),
        ensures
            out@ == fixed@.filter(|a: Address| may_dial(self@, a, now)),
    {
        let ghost pred = |a: Address| may_dial(self@, a, now);
        let mut out: Vec<Address> = Vec::new();
        let mut i: usize = 0;
        proof {
            reveal(Seq::filter);
            assert(fixed@.take(0) =~= Seq::<Address>::empty());
        }
        while i < fixed.len()
            invariant
                i <= fixed@.len(),
                self.wf(),
                pred == (|a: Address| may_dial(self@, a, now)),
                out@ == fixed@.take(i as int).filter(pred),
            decreases fixed@.len() - i,
        {
            let a = fixed[i];
            proof {
                reveal(Seq::filter);
                let more = fixed@.take(i + 1);
                assert(more.drop_last() =~= fixed@.take(i as int));
                assert(more.last() == a);
                assert(more.filter(pred) == if pred(a) {
                    more.drop_last().filter(pred).push(a)
                } else {
                    more.drop_last().filter(pred)
                });
            }
            if self.wants_dial(&a, now) {
                out.push(a);
            }
            i += 1;
        }
        proof {
            assert(fixed@.take(i as int) =~= fixed@);
        }
        out
    }

    /// Opens a session to `address`: the peer is to be dialled. Nothing is
    /// opened while a session to the address has not closed, or while the
    /// wait after a failed attempt is not over.
    pub fn begin_dial(&mut self, address: Address, now: i64) -> (r: Result<(), Refusal>)
        requires
            old(self).wf(),
        ensures
            final(self).wf(),
            final(self).spec_config() == old(self).spec_config(),
            r is Ok <==> may_dial(old(self)@, address, now),
            r matches Err(e) ==> final(self)@ == old(self)@ && e == (if old(self)@[place_of(
                old(self)@,
                address,
            )].peer.state != SessionState::Closed {
                Refusal::Duplicate
            } else {
                Refusal::Backoff
            }),
            r is Ok ==> final(self)@ == Self::with_session(
                old(self)@,
                PeerDescriptor::spec_new(
                    address,
                    Direction::Outbound,
                    SessionState::Connecting,
                    now,
                ),
                now,
            ),
    {
        match self.find(&address) {
            Some(i) => {
                assert(self@[i as int] == slot_view(self.slots@[i as int]));
                if self.slots[i].peer.state() != SessionState::Closed {
                    return Err(Refusal::Duplicate);
                }
                if now < self.slots[i].retry_at {
                    return Err(Refusal::Backoff);
                }
            },
            None => {},
        }
        self.put(PeerDescriptor::outbound(address, now), now);
        Ok(())
    }

    /// Takes a connection that the peer at `address` opened, and says that
    /// this side's greeting is to be sent. The connection is refused where
    /// as many sessions are under way as may be, or while a session to the
    /// address has not closed.
    pub fn accept(&mut self, address: Address, now: i64) -> (r: Result<SessionAction, Refusal>)
        requires
            old(self).wf(),
        ensures
            final(self).wf(),
            final(self).spec_config() == old(self).spec_config(),
            r == Self::spec_accept(old(self)@, old(self).spec_config().max_sessions, address),
            r is Err ==> final(self)@ == old(self)@,
            r is Ok ==> final(self)@ == Self::with_session(
                old(self)@,
                PeerDescriptor::spec_new(
                    address,
                    Direction::Inbound,
                    SessionState::Handshaking,
                    now,
                ),
                now,
            ),
    {
        if self.live_sessions() >= self.config.max_sessions {
            return Err(Refusal::LimitReached);
        }
        match self.find(&address) {
            Some(i) => {
                assert(self@[i as int] == slot_view(self.slots@[i as int]));
                if self.slots[i].peer.state() != SessionState::Closed {
                    return Err(Refusal::Duplicate);
                }
            },
            None => {},
        }
        self.put(PeerDescriptor::inbound(address, now), now);
        Ok(SessionAction::SendHello)
    }

    /// What taking a connection from `address` returns.
    pub open spec fn spec_accept(entries: Seq<PeerEntry>, max_sessions: usize, address: Address) -> Result<
        SessionAction,
        Refusal,
    > {
        if live_count(entries) >= max_sessions {
            Err(Refusal::LimitReached)
        } else if known(entries, address) && entries[place_of(entries, address)].peer.state
            != SessionState::Closed {
            Err(Refusal::Duplicate)
        } else {
            Ok(SessionAction::SendHello)
        }
    }

    /// The entries after a new session has taken the place of the one kept
    /// for its address, or has been added at the end where the address was
    /// not known.
    pub open spec fn with_session(entries: Seq<PeerEntry>, peer: PeerView, now: i64) -> Seq<
        PeerEntry,
    > {
        if known(entries, peer.address) {
            let i = place_of(entries, peer.address);
            entries.update(i, PeerEntry { peer, ..entries[i] })
        } else {
            entries.push(PeerEntry { peer, failures: 0, retry_at: now })
        }
    }

    fn put(&mut self, peer: PeerDescriptor, now: i64)
        requires
            old(self).wf(),
        ensures
            final(self).wf(),
            final(self).spec_config() == old(self).spec_config(),
            final(self)@ == Self::with_session(old(self)@, peer@, now),
    {
        let ghost before = self@;
        let address = peer.address();
        match self.find(&address) {
            Some(i) => {
                let old_slot = self.slots.remove(i);
                assert(slot_view(old_slot) == before[i as int]);
                let slot = Slot { peer, failures: old_slot.failures, retry_at: old_slot.retry_at };
                self.slots.insert(i, slot);
                proof {
                    let want = before.update(i as int, PeerEntry { peer: peer@, ..before[i as int] });
                    assert(self@ =~= want);
                    assert(distinct(self@)) by {
                        assert forall|a: int, b: int| 0 <= a < b < self@.len() implies (
                        #[trigger] self@[a]).peer.address != (#[trigger] self@[b]).peer.address by {
                            assert(before[a].peer.address != before[b].peer.address);
                        }
                    }
                }
            },
            None => {
                self.slots.push(Slot { peer, failures: 0, retry_at: now });
                proof {
                    let want = before.push(PeerEntry { peer: peer@, failures: 0, retry_at: now });
                    assert(self@ =~= want);
                    assert(distinct(self@)) by {
                        assert forall|a: int, b: int| 0 <= a < b < self@.len() implies (
                        #[trigger] self@[a]).peer.address != (#[trigger] self@[b]).peer.address by {
                            if b < before.len() {
                                assert(before[a].peer.address != before[b].peer.address);
                            } else {
                                assert(before[a].peer.address != address);
                            }
                        }
                    }
                }
            },
        }
    }

    /// Takes the session to `address` through `event`, which happened at
    /// time `now`, and says what is to be done. An event for an address
    /// that the table does not know changes nothing.
    pub fn handle(&mut self, address: &Address, now: i64, event: SessionEvent) -> (action:
        SessionAction)
        requires
            old(self).wf(),
        ensures
            final(self).wf(),
            final(self).spec_config() == old(self).spec_config(),
            (final(self)@, action) == Self::spec_handle(
                old(self)@,
                old(self).spec_config(),
                *address,
                now,
                event,
            ),
    {
        let ghost before = self@;
        match self.find(address) {
            None => SessionAction::Idle,
            Some(i) => {
                let mut slot = self.slots.remove(i);
                assert(slot_view(slot) == before[i as int]);
                let ghost entry = slot_view(slot);
                let was = slot.peer.state();
                let action = slot.peer.step(now, event, &self.config.session);
                let is = slot.peer.state();
                if is == SessionState::Established && was != SessionState::Established {
                    slot.failures = 0;
                } else if is == SessionState::Closed && was != SessionState::Closed
                    && slot.peer.direction() == Direction::Outbound && slot.peer.version().is_none() {
                    if slot.failures < u32::MAX {
                        slot.failures = slot.failures + 1;
                    }
                    let delay = delay_after(
                        self.config.backoff_base_ms,
                        self.config.backoff_max_ms,
                        slot.failures,
                    );
                    slot.retry_at = later(now, delay);
                }
                proof {
                    assert(slot_view(slot) == entry_after(
                        entry,
                        slot.peer@,
                        now,
                        self.config.backoff_base_ms,
                        self.config.backoff_max_ms,
                    ));
                    assert(slot.peer@.address == entry.peer.address);
                }
                self.slots.insert(i, slot);
                proof {
                    assert(self@ =~= before.update(i as int, slot_view(slot)));
                    assert(distinct(self@)) by {
                        assert forall|a: int, b: int| 0 <= a < b < self@.len() implies (
                        #[trigger] self@[a]).peer.address != (#[trigger] self@[b]).peer.address by {
                            assert(before[a].peer.address != before[b].peer.address);
                        }
                    }
                }
                action
            },
        }
    }

    /// The entries and the action after `event` for `address`.
    pub open spec fn spec_handle(
        entries: Seq<PeerEntry>,
        config: PeerConfig,
        address: Address,
        now: i64,
        event: SessionEvent,
    ) -> (Seq<PeerEntry>, SessionAction) {
        if known(entries, address) {
            let i = place_of(entries, address);
            let (after, action) = entries[i].peer.step(now, event, config.session);
            (
                entries.update(
                    i,
                    entry_after(
                        entries[i],
                        after,
                        now,
                        config.backoff_base_ms,
                        config.backoff_max_ms,
                    ),
                ),
                action,
            )
        } else {
            (entries, SessionAction::Idle)
        }
    }

    /// Forgets the peer at `address` if its session has closed, and says
    /// whether it did.
    pub fn forget(&mut self, address: &Address) -> (r: bool)
        requires
            old(self).wf(),
        ensures
            final(self).wf(),
            final(self).spec_config() == old(self).spec_config(),
            r == (known(old(self)@, *address) && old(self)@[place_of(
                old(self)@,
                *address,
            )].peer.state == SessionState::Closed),
            r ==> final(self)@ == old(self)@.remove(place_of(old(self)@, *address)),
            !r ==> final(self)@ == old(self)@,
    {
        let ghost before = self@;
        match self.find(address) {
            None => false,
            Some(i) => {
                assert(self@[i as int] == slot_view(self.slots@[i as int]));
                if self.slots[i].peer.state() != SessionState::Closed {
                    return false;
                }
                self.slots.remove(i);
                proof {
                    assert(self@ =~= before.remove(i as int));
                    assert(distinct(self@)) by {
                        assert forall|a: int, b: int| 0 <= a < b < self@.len() implies (
                        #[trigger] self@[a]).peer.address != (#[trigger] self@[b]).peer.address by {
                            let a0 = if a < i {
                                a
                            } else {
                                a + 1
                            };
                            let b0 = if b < i {
                                b
                            } else {
                                b + 1
                            };
                            assert(before[a0].peer.address != before[b0].peer.address);
                        }
                    }
                }
                true
            },
        }
    }
}

} // verus!
