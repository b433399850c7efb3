//! Which reconciliation runs next.
//!
//! Every session has a lane for each domain that it reconciles. A lane is
//! busy while a range comparison of it is under way, so that no two
//! comparisons of one lane overlap. Lanes are served in turn: sessions
//! round-robin, and within a session its domains round-robin. A lane whose
//! reconciliation has not converged is always served before one that has
//! converged and rested long enough to start afresh. Neither a session nor
//! the node as a whole has more lanes busy than its ceiling allows. Every
//! grant carries the number of ranges that its turn may compare.

use crate::peers::time_after;
use crate::session::Address;
use vstd::prelude::*;

verus! {

/// The settings of a scheduler.
#[derive(Clone, Copy, Debug)]
pub struct SchedulerConfig {
    /// Most lanes of one session that may be busy at once.
    pub session_ceiling: usize,
    /// Most lanes of all sessions that may be busy at once.
    pub global_ceiling: usize,
    /// Rest, in milliseconds, between the convergence of a reconciliation
    /// and the start of the next one in its lane.
    pub idle_interval_ms: i64,
    /// Most ranges that a granted turn may compare.
    pub turn_budget: u64,
}

/// Where the reconciliation of a lane stands.
#[derive(Clone, Copy, Debug, PartialEq, Eq, Structural)]
pub enum Phase {
    /// It has not converged.
    Active,
    /// It has converged, and the next one may start at `until`.
    Resting { until: i64 },
}

/// One session's reconciliation of one domain.
#[derive(Clone, Copy, Debug, PartialEq, Eq, Structural)]
pub struct Lane {
    pub phase: Phase,
    /// Whether a range comparison is under way.
    pub busy: bool,
}

/// Leave to run one range comparison.
#[derive(Clone, Copy, Debug, PartialEq, Eq, Structural)]
pub struct Grant {
    pub address: Address,
    /// The domain, by its place among the domains of the session.
    pub domain: usize,
    /// Whether the reconciliation is to start afresh, over the whole key
    /// space.
    pub fresh: bool,
    /// Most ranges that the turn may compare.
    pub budget: u64,
}

/// The lanes of one session.
pub struct SeatView {
    pub address: Address,
    pub lanes: Seq<Lane>,
    /// The lane whose turn it is.
    pub next_lane: nat,
}

/// The model of a scheduler.
pub struct SchedulerView {
    pub seats: Seq<SeatView>,
    /// The session whose turn it is.
    pub next_seat: nat,
}

/// Number of busy lanes among `lanes`.
pub open spec fn busy_lanes(lanes: Seq<Lane>) -> nat
    decreases lanes.len(),
{
    if lanes.len() == 0 {
        0
    } else {
        busy_lanes(lanes.drop_last()) + if lanes.last().busy {
            1nat
        } else {
            0nat
        }
    }
}

/// Number of busy lanes of all sessions.
pub open spec fn busy_total(seats: Seq<SeatView>) -> nat
    decreases seats.len(),
{
    if seats.len() == 0 {
        0
    } else {
        busy_total(seats.drop_last()) + busy_lanes(seats.last().lanes)
    }
}

/// Whether the lane can be served at time `now`: as one that has not
/// converged, or, if `fresh`, as one that has rested long enough.
pub open spec fn ready(lane: Lane, now: i64, fresh: bool) -> bool {
    !lane.busy && match lane.phase {
        Phase::Active => !fresh,
        Phase::Resting { until } => fresh && now >= until,
    }
}

/// The place that comes `k` places after `start` in a round of `len`.
pub open spec fn turn(len: nat, start: nat, k: nat) -> int {
    if start + k < len {
        (start + k) as int
    } else {
        start + k - len
    }
}

/// The first ready lane in a round that starts `k` places after `start`.
pub open spec fn first_lane(lanes: Seq<Lane>, start: nat, now: i64, fresh: bool, k: nat) -> Option<
    int,
>
    decreases lanes.len() - k,
{
    if k >= lanes.len() {
        None
    } else if ready(lanes[turn(lanes.len(), start, k)], now, fresh) {
        Some(turn(lanes.len(), start, k))
    } else {
        first_lane(lanes, start, now, fresh, k + 1)
    }
}

/// The lane that the session offers: none where it has as many lanes busy
/// as it may, else the first ready one from the lane whose turn it is.
pub open spec fn seat_offer(seat: SeatView, ceiling: usize, now: i64, fresh: bool) -> Option<int> {
    if busy_lanes(seat.lanes) >= ceiling {
        None
    } else {
        first_lane(seat.lanes, seat.next_lane, now, fresh, 0)
    }
}

/// The first session that offers a lane, in a round that starts `k` places
/// after `start`, and the lane that it offers.
pub open spec fn first_seat(
    seats: Seq<SeatView>,
    start: nat,
    ceiling: usize,
    now: i64,
    fresh: bool,
    k: nat,
) -> Option<(int, int)>
    decreases seats.len() - k,
{
    if k >= seats.len() {
        None
    } else {
        let s = turn(seats.len(), start, k);
        match seat_offer(seats[s], ceiling, now, fresh) {
            Some(d) => Some((s, d)),
            None => first_seat(seats, start, ceiling, now, fresh, k + 1),
        }
    }
}

/// The lane that is served next: none where as many lanes are busy as may
/// be; else the first lane that has not converged, sessions taken in turn;
/// else the first that has rested long enough.
pub open spec fn choice(view: SchedulerView, config: SchedulerConfig, now: i64) -> Option<
    (int, int, bool),
> {
    if busy_total(view.seats) >= config.global_ceiling {
        None
    } else {
        match first_seat(view.seats, view.next_seat, config.session_ceiling, now, false, 0) {
            Some((s, d)) => Some((s, d, false)),
            None => match first_seat(
                view.seats,
                view.next_seat,
                config.session_ceiling,
                now,
                true,
                0,
            ) {
                Some((s, d)) => Some((s, d, true)),
                None => None,
            },
        }
    }
}

/// The scheduler after lane `d` of session `s` has been granted: the lane
/// is busy and not converged, and the turn passes to the lane and to the
/// session after it.
pub open spec fn granted(view: SchedulerView, s: int, d: int) -> SchedulerView {
    let seat = view.seats[s];
    SchedulerView {
        seats: view.seats.update(
            s,
            SeatView {
                lanes: seat.lanes.update(d, Lane { phase: Phase::Active, busy: true }),
                next_lane: turn(seat.lanes.len(), d as nat, 1) as nat,
                ..seat
            },
        ),
        next_seat: turn(view.seats.len(), s as nat, 1) as nat,
    }
}

/// Whether the scheduler holds the session at `address`.
pub open spec fn seated(seats: Seq<SeatView>, address: Address) -> bool {
    exists|i: int| 0 <= i < seats.len() && (#[trigger] seats[i]).address == address
}

/// The place of the session at `address`.
pub open spec fn seat_of(seats: Seq<SeatView>, address: Address) -> int {
    choose|i: int| 0 <= i < seats.len() && (#[trigger] seats[i]).address == address
}

/// Whether the model is in order: no two sessions share an address, the
/// turns point at a session and at lanes that exist, and no ceiling is
/// exceeded.
pub open spec fn view_wf(view: SchedulerView, config: SchedulerConfig) -> bool {
    &&& forall|i: int, j: int|
        0 <= i < j < view.seats.len() ==> (#[trigger] view.seats[i]).address != (
        #[trigger] view.seats[j]).address
    &&& view.next_seat < view.seats.len() || view.next_seat == 0
    &&& forall|i: int|
        0 <= i < view.seats.len() ==> {
            let seat = #[trigger] view.seats[i];
            &&& seat.next_lane < seat.lanes.len() || seat.next_lane == 0
            &&& busy_lanes(seat.lanes) <= config.session_ceiling
        }
    &&& busy_total(view.seats) <= config.global_ceiling
}

proof fn lemma_busy_lanes_update(lanes: Seq<Lane>, i: int, lane: Lane)
    requires
        0 <= i < lanes.len(),
    ensures
        busy_lanes(lanes.update(i, lane)) == busy_lanes(lanes) - (if lanes[i].busy {
            1int
        } else {
            0int
        }) + (if lane.busy {
            1int
        } else {
            0int
        }),
    decreases lanes.len(),
{
    let upd = lanes.update(i, lane);
    if i == lanes.len() - 1 {
        assert(upd.drop_last() =~= lanes.drop_last());
    } else {
        assert(upd.drop_last() =~= lanes.drop_last().update(i, lane));
        lemma_busy_lanes_update(lanes.drop_last(), i, lane);
    }
}

proof fn lemma_busy_total_update(seats: Seq<SeatView>, i: int, seat: SeatView)
    requires
        0 <= i < seats.len(),
    ensures
        busy_total(seats.update(i, seat)) == busy_total(seats) - busy_lanes(seats[i].lanes)
            + busy_lanes(seat.lanes),
    decreases seats.len(),
{
    let upd = seats.update(i, seat);
    if i == seats.len() - 1 {
        assert(upd.drop_last() =~= seats.drop_last());
    } else {
        assert(upd.drop_last() =~= seats.drop_last().update(i, seat));
        lemma_busy_total_update(seats.drop_last(), i, seat);
    }
}

proof fn lemma_busy_total_remove(seats: Seq<SeatView>, i: int)
    requires
        0 <= i < seats.len(),
    ensures
        busy_total(seats.remove(i)) == busy_total(seats) - busy_lanes(seats[i].lanes),
    decreases seats.len(),
{
    let less = seats.remove(i);
    if i == seats.len() - 1 {
        assert(less =~= seats.drop_last());
    } else {
        assert(less.drop_last() =~= seats.drop_last().remove(i));
        assert(less.last() == seats.last());
        lemma_busy_total_remove(seats.drop_last(), i);
    }
}

/// The lane that is chosen is a lane of a session that the scheduler
/// holds.
pub proof fn lemma_choice(view: SchedulerView, config: SchedulerConfig, now: i64)
    requires
        view_wf(view, config),
    ensures
        choice(view, config, now) matches Some((s, d, fresh)) ==> 0 <= s < view.seats.len() && 0
            <= d < view.seats[s].lanes.len() && ready(view.seats[s].lanes[d], now, fresh),
{
    lemma_first_seat(view.seats, view.next_seat, config.session_ceiling, now, false, 0);
    lemma_first_seat(view.seats, view.next_seat, config.session_ceiling, now, true, 0);
}

/// A lane that is found ready is one of the lanes, and ready.
proof fn lemma_first_lane(lanes: Seq<Lane>, start: nat, now: i64, fresh: bool, k: nat)
    requires
        start < lanes.len() || start == 0,
    ensures
        first_lane(lanes, start, now, fresh, k) matches Some(d) ==> 0 <= d < lanes.len() && ready(
            lanes[d],
            now,
            fresh,
        ),
    decreases lanes.len() - k,
{
    if k < lanes.len() {
        lemma_first_lane(lanes, start, now, fresh, k + 1);
    }
}

/// A session that is found to offer a lane is one of the sessions, has
/// fewer lanes busy than it may, and the lane is one of its own, and ready.
proof fn lemma_first_seat(
    seats: Seq<SeatView>,
    start: nat,
    ceiling: usize,
    now: i64,
    fresh: bool,
    k: nat,
)
    requires
        start < seats.len() || start == 0,
        forall|i: int|
            0 <= i < seats.len() ==> (#[trigger] seats[i]).next_lane < seats[i].lanes.len()
                || seats[i].next_lane == 0,
    ensures
        first_seat(seats, start, ceiling, now, fresh, k) matches Some((s, d)) ==> 0 <= s
            < seats.len() && 0 <= d < seats[s].lanes.len() && ready(seats[s].lanes[d], now, fresh)
            && busy_lanes(seats[s].lanes) < ceiling,
    decreases seats.len() - k,
{
    if k < seats.len() {
        let s = turn(seats.len(), start, k);
        lemma_first_lane(seats[s].lanes, seats[s].next_lane, now, fresh, 0);
        lemma_first_seat(seats, start, ceiling, now, fresh, k + 1);
    }
}

/// The lanes of a session.
struct Seat {
    address: Address,
    lanes: Vec<Lane>,
    next_lane: usize,
}

spec fn seat_view(seat: Seat) -> SeatView {
    SeatView { address: seat.address, lanes: seat.lanes@, next_lane: seat.next_lane as nat }
}

/// The place that comes `k` places after `start` in a round of `len`.
fn turn_at(len: usize, start: usize, k: usize) -> (i: usize)
    requires
        start < len,
        k < len,
    ensures
        i == turn(len as nat, start as nat, k as nat),
        i < len,
{
    let room: usize = len - start;
    if k < room {
        start + k
    } else {
        k - room
    }
}

fn count_busy(lanes: &Vec<Lane>) -> (n: usize)
    ensures
        n == busy_lanes(lanes@),
{
    let mut n: usize = 0;
    let mut i: usize = 0;
    proof {
        assert(lanes@.take(0) =~= Seq::<Lane>::empty());
    }
    while i < lanes.len()
        invariant
            i <= lanes@.len(),
            n <= i,
            n == busy_lanes(lanes@.take(i as int)),
        decreases lanes@.len() - i,
    {
        proof {
            assert(lanes@.take(i + 1).drop_last() =~= lanes@.take(i as int));
        }
        if lanes[i].busy {
            n += 1;
        }
        i += 1;
    }
    proof {
        assert(lanes@.take(i as int) =~= lanes@);
    }
    n
}

fn lane_is_ready(lane: &Lane, now: i64, fresh: bool) -> (r: bool)
    ensures
        r == ready(*lane, now, fresh),
{
    !lane.busy && match lane.phase {
        Phase::Active => !fresh,
        Phase::Resting { until } => fresh && now >= until,
    }
}

fn offer_of(seat: &Seat, ceiling: usize, now: i64, fresh: bool) -> (r: Option<usize>)
    requires
        seat.next_lane < seat.lanes@.len() || seat.next_lane == 0,
    ensures
        r is Some <==> seat_offer(seat_view(*seat), ceiling, now, fresh) is Some,
        r matches Some(d) ==> seat_offer(seat_view(*seat), ceiling, now, fresh) == Some(d as int),
{
    if count_busy(&seat.lanes) >= ceiling {
        return None;
    }
    let len = seat.lanes.len();
    let mut k: usize = 0;
    while k < len
        invariant
            k <= len,
            len == seat.lanes@.len(),
            seat.next_lane < len || seat.next_lane == 0,
            busy_lanes(seat.lanes@) < ceiling,
            first_lane(seat.lanes@, seat.next_lane as nat, now, fresh, 0) == first_lane(
                seat.lanes@,
                seat.next_lane as nat,
                now,
                fresh,
                k as nat,
            ),
        decreases len - k,
    {
        let d = turn_at(len, seat.next_lane, k);
        if lane_is_ready(&seat.lanes[d], now, fresh) {
            assert(first_lane(seat.lanes@, seat.next_lane as nat, now, fresh, k as nat) == Some(
                d as int,
            ));
            return Some(d);
        }
        assert(first_lane(seat.lanes@, seat.next_lane as nat, now, fresh, k as nat) == first_lane(
            seat.lanes@,
            seat.next_lane as nat,
            now,
            fresh,
            (k + 1) as nat,
        ));
        k += 1;
    }
    assert(first_lane(seat.lanes@, seat.next_lane as nat, now, fresh, k as nat) is None);
    None
}

/// The scheduler of a node.
pub struct Scheduler {
    config: SchedulerConfig,
    seats: Vec<Seat>,
    next_seat: usize,
}

impl View for Scheduler {
    type V = SchedulerView;

    closed spec fn view(&self) -> SchedulerView {
        SchedulerView {
            seats: Seq::new(self.seats@.len(), |i: int| seat_view(self.seats@[i])),
            next_seat: self.next_seat as nat,
        }
    }
}

impl Scheduler {
    /// The settings that the scheduler was made with.
    pub closed spec fn spec_config(&self) -> SchedulerConfig {
        self.config
    }

    /// The scheduler is in order.
    pub open spec fn wf(&self) -> bool {
        view_wf(self@, self.spec_config())
    }

    /// One reconciliation to a pair. A scheduler holds one session for an
    /// address and one lane for each of its domains, so no pair of a peer
    /// and a domain has two reconciliations under way.
    pub proof fn lemma_one_lane_per_pair(&self, i: int, j: int)
        requires
            self.wf(),
            0 <= i < self@.seats.len(),
            0 <= j < self@.seats.len(),
            i != j,
        ensures
            self@.seats[i].address != self@.seats[j].address,
    {
        if i < j {
            assert(self@.seats[i].address != self@.seats[j].address);
        } else {
            assert(self@.seats[j].address != self@.seats[i].address);
        }
    }

    /// The ceilings hold: no session has more lanes busy than a session
    /// may, and all sessions together have no more busy than the node may.
    pub proof fn lemma_ceilings(&self, i: int)
        requires
            self.wf(),
            0 <= i < self@.seats.len(),
        ensures
            busy_lanes(self@.seats[i].lanes) <= self.spec_config().session_ceiling,
            busy_total(self@.seats) <= self.spec_config().global_ceiling,
    {
        assert(busy_lanes(self@.seats[i].lanes) <= self.spec_config().session_ceiling);
    }

    /// A scheduler without sessions.
    pub fn new(config: SchedulerConfig) -> (s: Scheduler)
        ensures
            s.wf(),
            s.spec_config() == config,
            s@.seats == Seq::<SeatView>::empty(),
            s@.next_seat == 0,
    {
        let s = Scheduler { config, seats: Vec::new(), next_seat: 0 };
        assert(s@.seats =~= Seq::<SeatView>::empty());
        s
    }

    fn find(&self, address: &Address) -> (r: Option<usize>)
        requires
            self.wf(),
        ensures
            r is Some <==> seated(self@.seats, *address),
            r matches Some(i) ==> i == seat_of(self@.seats, *address) && i < self@.seats.len()
                && self@.seats[i as int].address == *address,
    {
        let mut i: usize = 0;
        while i < self.seats.len()
            invariant
                i <= self.seats@.len(),
                self.wf(),
                forall|j: int| 0 <= j < i ==> (#[trigger] self@.seats[j]).address != *address,
            decreases self.seats@.len() - i,
        {
            let a = self.seats[i].address;
            assert(self@.seats[i as int].address == a);
            if a.ip == address.ip && a.port == address.port {
                proof {
                    let j = seat_of(self@.seats, *address);
                    if j < i {
                        assert(self@.seats[j].address != self@.seats[i as int].address);
                    }
                    if i < j {
                        assert(self@.seats[i as int].address != self@.seats[j].address);
                    }
                }
                return Some(i);
            }
            i += 1;
        }
        None
    }

    fn total_busy(&self) -> (n: usize)
        requires
            self.wf(),
        ensures
            n == busy_total(self@.seats),
    {
        let mut n: usize = 0;
        let mut i: usize = 0;
        let ghost seats = self@.seats;
        proof {
            assert(seats.take(0) =~= Seq::<SeatView>::empty());
        }
        while i < self.seats.len()
            invariant
                i <= self.seats@.len(),
                seats == self@.seats,
                busy_total(seats) <= self.spec_config().global_ceiling,
                n == busy_total(seats.take(i as int)),
            decreases self.seats@.len() - i,
        {
            proof {
                assert(seats.take(i + 1).drop_last() =~= seats.take(i as int));
                assert(seats.take(i + 1).last() == seat_view(self.seats@[i as int]));
                lemma_busy_total_take(seats, i + 1);
            }
            let busy = count_busy(&self.seats[i].lanes);
            n = n + busy;
            i += 1;
        }
        proof {
            assert(seats.take(i as int) =~= seats);
        }
        n
    }

    /// Adds the session at `address`, with a lane for each of its
    /// `domains` domains; each lane starts with a reconciliation that has
    /// not converged. A session that the scheduler holds already is not
    /// added again. Says whether the session was added.
    pub fn add_session(&mut self, address: Address, domains: usize) -> (added: bool)
        requires
            old(self).wf(),
        ensures
            final(self).wf(),
            final(self).spec_config() == old(self).spec_config(),
            added == !seated(old(self)@.seats, address),
            !added ==> final(self)@ == old(self)@,
            added ==> final(self)@ == (SchedulerView {
                seats: old(self)@.seats.push(
                    SeatView {
                        address,
                        lanes: Seq::new(
                            domains as nat,
                            |i: int| Lane { phase: Phase::Active, busy: false },
                        ),
                        next_lane: 0,
                    },
                ),
                ..old(self)@
            }),
    {
        if self.find(&address).is_some() {
            return false;
        }
        let ghost before = self@;
        let mut lanes: Vec<Lane> = Vec::new();
        let mut i: usize = 0;
        while i < domains
            invariant
                i <= domains,
                lanes@.len() == i,
                busy_lanes(lanes@) == 0,
                forall|j: int|
                    0 <= j < i ==> lanes@[j] == (Lane { phase: Phase::Active, busy: false }),
            decreases domains - i,
        {
            let ghost prev = lanes@;
            lanes.push(Lane { phase: Phase::Active, busy: false });
            proof {
                assert(lanes@.drop_last() =~= prev);
            }
            i += 1;
        }
        let ghost fresh = SeatView {
            address,
            lanes: Seq::new(domains as nat, |i: int| Lane { phase: Phase::Active, busy: false }),
            next_lane: 0,
        };
        proof {
            assert(lanes@ =~= fresh.lanes);
        }
        self.seats.push(Seat { address, lanes, next_lane: 0 });
        proof {
            let after = self@;
            assert(after.seats =~= before.seats.push(fresh));
            assert(after.seats.drop_last() =~= before.seats);
            assert forall|a: int, b: int| 0 <= a < b < after.seats.len() implies (
            #[trigger] after.seats[a]).address != (#[trigger] after.seats[b]).address by {
                if b < before.seats.len() {
                    assert(before.seats[a].address != before.seats[b].address);
                } else {
                    assert(before.seats[a].address != address);
                }
            }
            assert forall|i: int| 0 <= i < after.seats.len() implies {
                let seat = #[trigger] after.seats[i];
                &&& seat.next_lane < seat.lanes.len() || seat.next_lane == 0
                &&& busy_lanes(seat.lanes) <= self.spec_config().session_ceiling
            } by {
                if i < before.seats.len() {
                    assert(after.seats[i] == before.seats[i]);
                }
            }
        }
        true
    }

    /// Drops the session at `address` with all its lanes, busy or not, and
    /// says whether the scheduler held it.
    pub fn remove_session(&mut self, address: &Address) -> (removed: bool)
        requires
            old(self).wf(),
        ensures
            final(self).wf(),
            final(self).spec_config() == old(self).spec_config(),
            removed == seated(old(self)@.seats, *address),
            !removed ==> final(self)@ == old(self)@,
            removed ==> final(self)@.seats == old(self)@.seats.remove(
                seat_of(old(self)@.seats, *address),
            ) && final(self)@.next_seat == (if old(self)@.next_seat < final(self)@.seats.len() {
                old(self)@.next_seat
            } else {
                0
            }),
    {
        let ghost before = self@;
        match self.find(address) {
            None => false,
            Some(i) => {
                self.seats.remove(i);
                if self.next_seat >= self.seats.len() {
                    self.next_seat = 0;
                }
                proof {
                    let after = self@;
                    assert(after.seats =~= before.seats.remove(i as int));
                    lemma_busy_total_remove(before.seats, i as int);
                    assert forall|a: int, b: int| 0 <= a < b < after.seats.len() implies (
                    #[trigger] after.seats[a]).address != (#[trigger] after.seats[b]).address by {
                        let a0 = if a < i {
                            a
                        } else {
                            a + 1
                        };
                        let b0 = if b < i {
                            b
                        } else {
                            b + 1
                        };
                        assert(before.seats[a0].address != before.seats[b0].address);
                    }
                    assert forall|j: int| 0 <= j < after.seats.len() implies {
                        let seat = #[trigger] after.seats[j];
                        &&& seat.next_lane < seat.lanes.len() || seat.next_lane == 0
                        &&& busy_lanes(seat.lanes) <= self.spec_config().session_ceiling
                    } by {
                        let j0 = if j < i {
                            j
                        } else {
                            j + 1
                        };
                        assert(after.seats[j] == before.seats[j0]);
                    }
                }
                true
            },
        }
    }

    /// Grants the lane that is served next at time `now`, if there is one,
    /// and marks it busy.
    pub fn next(&mut self, now: i64) -> (r: Option<Grant>)
        requires
            old(self).wf(),
        ensures
            final(self).wf(),
            final(self).spec_config() == old(self).spec_config(),
            r is Some <==> choice(old(self)@, old(self).spec_config(), now) is Some,
            r is None ==> final(self)@ == old(self)@,
            r matches Some(grant) ==> {
                let (s, d, fresh) = choice(old(self)@, old(self).spec_config(), now)->Some_0;
                &&& grant.address == old(self)@.seats[s].address
                &&& grant.domain == d
                &&& grant.fresh == fresh
                &&& grant.budget == old(self).spec_config().turn_budget
                &&& final(self)@ == granted(old(self)@, s, d)
            },
    {
        if self.total_busy() >= self.config.global_ceiling {
            return None;
        }
        proof {
            lemma_first_seat(
                self@.seats,
                self@.next_seat,
                self.spec_config().session_ceiling,
                now,
                false,
                0,
            );
            lemma_first_seat(
                self@.seats,
                self@.next_seat,
                self.spec_config().session_ceiling,
                now,
                true,
                0,
            );
        }
        match self.pick(now, false) {
            Some((s, d)) => Some(self.grant(s, d, now, false)),
            None => match self.pick(now, true) {
                Some((s, d)) => Some(self.grant(s, d, now, true)),
                None => None,
            },
        }
    }

    fn pick(&self, now: i64, fresh: bool) -> (r: Option<(usize, usize)>)
        requires
            self.wf(),
        ensures
            r is Some <==> first_seat(
                self@.seats,
                self@.next_seat,
                self.spec_config().session_ceiling,
                now,
                fresh,
                0,
            ) is Some,
            r matches Some((s, d)) ==> first_seat(
                self@.seats,
                self@.next_seat,
                self.spec_config().session_ceiling,
                now,
                fresh,
                0,
            ) == Some((s as int, d as int)),
    {
        let len = self.seats.len();
        let ghost seats = self@.seats;
        let mut k: usize = 0;
        while k < len
            invariant
                k <= len,
                len == self.seats@.len(),
                seats == self@.seats,
                self.wf(),
                first_seat(
                    seats,
                    self@.next_seat,
                    self.spec_config().session_ceiling,
                    now,
                    fresh,
                    0,
                ) == first_seat(
                    seats,
                    self@.next_seat,
                    self.spec_config().session_ceiling,
                    now,
                    fresh,
                    k as nat,
                ),
            decreases len - k,
        {
            let s = turn_at(len, self.next_seat, k);
            assert(seats[s as int] == seat_view(self.seats@[s as int]));
            match offer_of(&self.seats[s], self.config.session_ceiling, now, fresh) {
                Some(d) => {
                    return Some((s, d));
                },
                None => {},
            }
            k += 1;
        }
        None
    }

    fn grant(&mut self, s: usize, d: usize, now: i64, fresh: bool) -> (g: Grant)
        requires
            old(self).wf(),
            s < old(self)@.seats.len(),
            d < old(self)@.seats[s as int].lanes.len(),
            !old(self)@.seats[s as int].lanes[d as int].busy,
            busy_lanes(old(self)@.seats[s as int].lanes) < old(self).spec_config().session_ceiling,
            busy_total(old(self)@.seats) < old(self).spec_config().global_ceiling,
        ensures
            final(self).wf(),
            final(self).spec_config() == old(self).spec_config(),
            final(self)@ == granted(old(self)@, s as int, d as int),
            g == (Grant {
                address: old(self)@.seats[s as int].address,
                domain: d,
                fresh,
                budget: old(self).spec_config().turn_budget,
            }),
    {
        let ghost before = self@;
        let len = self.seats.len();
        let mut seat = self.seats.remove(s);
        assert(seat_view(seat) == before.seats[s as int]);
        let lanes = seat.lanes.len();
        let ghost old_lanes = seat.lanes@;
        seat.lanes.set(d, Lane { phase: Phase::Active, busy: true });
        seat.next_lane = turn_at(lanes, d, if lanes > 1 {
            1
        } else {
            0
        });
        let address = seat.address;
        proof {
            lemma_busy_lanes_update(old_lanes, d as int, Lane { phase: Phase::Active, busy: true });
            lemma_busy_total_update(before.seats, s as int, seat_view(seat));
        }
        self.seats.insert(s, seat);
        self.next_seat = turn_at(len, s, if len > 1 {
            1
        } else {
            0
        });
        proof {
            let after = self@;
            assert(after.seats =~= before.seats.update(s as int, seat_view(seat)));
            assert(after == granted(before, s as int, d as int));
            assert forall|a: int, b: int| 0 <= a < b < after.seats.len() implies (
            #[trigger] after.seats[a]).address != (#[trigger] after.seats[b]).address by {
                assert(before.seats[a].address != before.seats[b].address);
            }
            assert forall|j: int| 0 <= j < after.seats.len() implies {
                let st = #[trigger] after.seats[j];
                &&& st.next_lane < st.lanes.len() || st.next_lane == 0
                &&& busy_lanes(st.lanes) <= self.spec_config().session_ceiling
            } by {
                if j != s {
                    assert(after.seats[j] == before.seats[j]);
                }
            }
        }
        Grant { address, domain: d, fresh, budget: self.config.turn_budget }
    }

    /// Takes note that the range comparison of a lane has ended at time
    /// `now`: the lane is no longer busy, and where its reconciliation has
    /// converged it rests for the idle interval. A lane that is not busy,
    /// or that the scheduler does not hold, is left alone. Says whether
    /// the lane was busy.
    pub fn complete(&mut self, address: &Address, domain: usize, converged: bool, now: i64) -> (done:
        bool)
        requires
            old(self).wf(),
        ensures
            final(self).wf(),
            final(self).spec_config() == old(self).spec_config(),
            done == Self::is_busy(old(self)@, *address, domain),
            !done ==> final(self)@ == old(self)@,
            done ==> final(self)@ == Self::released(
                old(self)@,
                seat_of(old(self)@.seats, *address),
                domain as int,
                Self::phase_after(converged, now, old(self).spec_config().idle_interval_ms),
            ),
    {
        let ghost before = self@;
        match self.find(address) {
            None => false,
            Some(s) => {
                assert(before.seats[s as int] == seat_view(self.seats@[s as int]));
                if domain >= self.seats[s].lanes.len() || !self.seats[s].lanes[domain].busy {
                    return false;
                }
                let phase = if converged {
                    Phase::Resting { until: later(now, self.config.idle_interval_ms) }
                } else {
                    Phase::Active
                };
                let mut seat = self.seats.remove(s);
                let ghost old_lanes = seat.lanes@;
                seat.lanes.set(domain, Lane { phase, busy: false });
                proof {
                    lemma_busy_lanes_update(old_lanes, domain as int, Lane { phase, busy: false });
                    lemma_busy_total_update(before.seats, s as int, seat_view(seat));
                }
                self.seats.insert(s, seat);
                proof {
                    let after = self@;
                    assert(after.seats =~= before.seats.update(s as int, seat_view(seat)));
                    assert forall|a: int, b: int| 0 <= a < b < after.seats.len() implies (
                    #[trigger] after.seats[a]).address != (#[trigger] after.seats[b]).address by {
                        assert(before.seats[a].address != before.seats[b].address);
                    }
                    assert forall|j: int| 0 <= j < after.seats.len() implies {
                        let st = #[trigger] after.seats[j];
                        &&& st.next_lane < st.lanes.len() || st.next_lane == 0
                        &&& busy_lanes(st.lanes) <= self.spec_config().session_ceiling
                    } by {
                        if j != s {
                            assert(after.seats[j] == before.seats[j]);
                        }
                    }
                }
                true
            },
        }
    }

    /// Whether the scheduler holds a busy lane for the domain of the
    /// session at `address`.
    pub open spec fn is_busy(view: SchedulerView, address: Address, domain: usize) -> bool {
        seated(view.seats, address) && {
            let seat = view.seats[seat_of(view.seats, address)];
            domain < seat.lanes.len() && seat.lanes[domain as int].busy
        }
    }

    /// Where a lane stands after a range comparison: at rest for the idle
    /// interval if its reconciliation has converged, not converged else.
    pub open spec fn phase_after(converged: bool, now: i64, idle_interval_ms: i64) -> Phase {
        if converged {
            Phase::Resting {
                until: time_after(
                    now,
                    if idle_interval_ms < 0 {
                        0
                    } else {
                        idle_interval_ms as int
                    },
                ),
            }
        } else {
            Phase::Active
        }
    }

    /// The scheduler after lane `d` of session `s` has been released in
    /// `phase`.
    pub open spec fn released(view: SchedulerView, s: int, d: int, phase: Phase) -> SchedulerView {
        let seat = view.seats[s];
        SchedulerView {
            seats: view.seats.update(
                s,
                SeatView { lanes: seat.lanes.update(d, Lane { phase, busy: false }), ..seat },
            ),
            ..view
        }
    }
}

/// The time `delay` after `now`; a negative delay counts as none.
fn later(now: i64, delay: i64) -> (t: i64)
    ensures
        t == time_after(
            now,
            if delay < 0 {
                0
            } else {
                delay as int
            },
        ),
{
    if delay <= 0 {
        now
    } else if now > i64::MAX - delay {
        i64::MAX
    } else {
        now + delay
    }
}

proof fn lemma_busy_total_take(seats: Seq<SeatView>, i: int)
    requires
        0 <= i <= seats.len(),
    ensures
        busy_total(seats.take(i)) <= busy_total(seats),
    decreases seats.len() - i,
{
    if i < seats.len() {
        lemma_busy_total_take(seats, i + 1);
        assert(seats.take(i + 1).drop_last() =~= seats.take(i));
    } else {
        assert(seats.take(i) =~= seats);
    }
}

} // verus!
