//! Reconciliation of two stores by range bisection, a budgeted turn at a
//! time.

use crate::bisect::{
    absorbed, agree_on, count_in, lemma_absorbed_twice, lemma_count_frame, owed, span_keys,
    spec_judge, Verdict,
};
use crate::cursor::{
    covered, frontier_wf, lemma_pending_covered, lemma_settled, pending, potential, settled, Cursor,
};
use crate::exchange::exchange_alike;
use crate::range::Span;
use crate::store::{Entry, MemoryStore};
use vstd::prelude::*;

verus! {

/// The settings of a reconciliation.
#[derive(Clone, Copy, Debug)]
pub struct ReconcileConfig {
    /// A range in which neither side sees more keys than this is compared
    /// key by key.
    pub exact_threshold: u64,
    /// Most ranges that one turn compares.
    pub turn_budget: u64,
}

/// What one turn did.
#[derive(Clone, Copy, Debug, PartialEq, Eq)]
pub struct TurnReport {
    /// Ranges compared.
    pub compared: u64,
    /// Records sent to the other side.
    pub pushed: u64,
    /// Records taken from the other side.
    pub pulled: u64,
    /// Whether no range is left to compare.
    pub converged: bool,
}

/// Why two stores cannot be reconciled.
#[derive(Clone, Copy, Debug, PartialEq, Eq, Structural)]
pub enum ReconcileError {
    /// The stores hold different data sets.
    DomainMismatch,
    /// The stores admit values of different sizes.
    LimitMismatch,
}

/// The watermark that both sides use: the smaller of the one asked for and
/// the clock of the side that answers.
pub open spec fn spec_clamp(watermark: i64, clock: i64) -> i64 {
    if clock < watermark {
        clock
    } else {
        watermark
    }
}

/// The watermark that both sides use.
pub fn clamp(watermark: i64, clock: i64) -> (w: i64)
    ensures
        w == spec_clamp(watermark, clock),
{
    if clock < watermark {
        clock
    } else {
        watermark
    }
}

/// The work list after `steps` comparisons, each judging the last range on
/// what the two sides see in it; an empty work list stays empty.
pub open spec fn advance(
    spans: Seq<Span>,
    a: Map<nat, Entry>,
    b: Map<nat, Entry>,
    w: i64,
    threshold: nat,
    steps: nat,
) -> Seq<Span>
    decreases steps,
{
    if steps == 0 {
        spans
    } else {
        let prev = advance(spans, a, b, w, threshold, (steps - 1) as nat);
        if prev.len() == 0 {
            prev
        } else {
            settled(prev, count_in(a, w, prev.last()), count_in(b, w, prev.last()), threshold)
        }
    }
}

/// Whether comparing `span` key by key sends a record either way.
pub open spec fn sends(a: Map<nat, Entry>, b: Map<nat, Entry>, w: i64, span: Span) -> bool {
    owed(b, a, w, span_keys(span)).len() + owed(a, b, w, span_keys(span)).len() > 0
}

/// The ranges that the first `steps` comparisons mark: those that were
/// compared key by key and in which a record was sent, in the order of
/// their comparison.
pub open spec fn marks(
    spans: Seq<Span>,
    a: Map<nat, Entry>,
    b: Map<nat, Entry>,
    w: i64,
    threshold: nat,
    steps: nat,
) -> Seq<Span>
    decreases steps,
{
    if steps == 0 {
        Seq::empty()
    } else {
        let before = marks(spans, a, b, w, threshold, (steps - 1) as nat);
        let prev = advance(spans, a, b, w, threshold, (steps - 1) as nat);
        if prev.len() > 0 && spec_judge(
            prev.last(),
            count_in(a, w, prev.last()),
            count_in(b, w, prev.last()),
            threshold,
        ) == Verdict::Exchange && sends(a, b, w, prev.last()) {
            before.push(prev.last())
        } else {
            before
        }
    }
}

/// The keys that a turn compared key by key: those that were pending before
/// it and lie in no range that is left after it.
pub open spec fn turn_region(
    before: Seq<Span>,
    after: Seq<Span>,
    a: Map<nat, Entry>,
    b: Map<nat, Entry>,
    w: i64,
    threshold: nat,
) -> Set<nat> {
    pending(before, a, b, w, threshold).difference(covered(after))
}

/// What a turn with the given budget makes of a work list and two sets of
/// records.
pub open spec fn turn_outcome(
    before: Seq<Span>,
    after: Seq<Span>,
    l0: Map<nat, Entry>,
    r0: Map<nat, Entry>,
    l1: Map<nat, Entry>,
    r1: Map<nat, Entry>,
    w: i64,
    now: i64,
    threshold: nat,
    budget: u64,
    report: TurnReport,
) -> bool {
    let region = turn_region(before, after, l0, r0, w, threshold);
    &&& report.compared <= budget
    &&& after == advance(before, l0, r0, w, threshold, report.compared as nat)
    &&& report.compared > 0 ==> advance(
        before,
        l0,
        r0,
        w,
        threshold,
        (report.compared - 1) as nat,
    ).len() > 0
    &&& report.converged == (after.len() == 0)
    &&& report.converged || report.compared == budget
    &&& l1 == absorbed(l0, r0, w, now, region)
    &&& r1 == absorbed(r0, l0, w, now, region)
    &&& report.pushed == owed(r0, l0, w, region).len()
    &&& report.pulled == owed(l0, r0, w, region).len()
    &&& frontier_wf(after)
    &&& covered(after).subset_of(covered(before))
    &&& pending(after, l0, r0, w, threshold) == pending(before, l0, r0, w, threshold).intersect(
        covered(after),
    )
    &&& potential(after) + report.compared <= potential(before)
}

/// Records that took in a region are what they were outside it.
proof fn lemma_absorbed_frame(
    mine: Map<nat, Entry>,
    theirs: Map<nat, Entry>,
    w: i64,
    now: i64,
    region: Set<nat>,
    span: Span,
)
    requires
        region.disjoint(span_keys(span)),
    ensures
        agree_on(absorbed(mine, theirs, w, now, region), mine, span),
{
    let got = absorbed(mine, theirs, w, now, region);
    assert forall|k: nat|
        #![trigger got.contains_key(k)]
        #![trigger mine.contains_key(k)]
        span.contains(k) implies (got.contains_key(k) <==> mine.contains_key(k)) && (
    got.contains_key(k) ==> got[k] == mine[k]) by {
        assert(span_keys(span).contains(k));
        assert(!region.contains(k));
    }
}

/// What a side is owed in two regions that share no key is what it is owed
/// in each.
proof fn lemma_owed_union(
    mine: Map<nat, Entry>,
    theirs: Map<nat, Entry>,
    w: i64,
    first: Set<nat>,
    second: Set<nat>,
)
    requires
        first.disjoint(second),
        owed(mine, theirs, w, first).finite(),
        owed(mine, theirs, w, second).finite(),
    ensures
        owed(mine, theirs, w, first.union(second)).finite(),
        owed(mine, theirs, w, first.union(second)).len() == owed(mine, theirs, w, first).len()
            + owed(mine, theirs, w, second).len(),
{
    let a = owed(mine, theirs, w, first);
    let b = owed(mine, theirs, w, second);
    assert(owed(mine, theirs, w, first.union(second)) =~= a + b);
    assert(a.disjoint(b));
    vstd::set_lib::lemma_set_disjoint_lens(a, b);
    vstd::set::axiom_set_union_finite(a, b);
}

/// Compares up to `budget` ranges of the work list, as of `w`.
fn run(
    cursor: &mut Cursor,
    local: &mut MemoryStore,
    remote: &mut MemoryStore,
    w: i64,
    now: i64,
    threshold: u64,
    budget: u64,
) -> (report: TurnReport)
    requires
        old(cursor).wf(),
        old(local).wf(),
        old(remote).wf(),
        old(local).spec_max_value_size() == old(remote).spec_max_value_size(),
    ensures
        final(cursor).wf(),
        final(local).wf(),
        final(remote).wf(),
        final(cursor).spec_watermark() == old(cursor).spec_watermark(),
        final(local).spec_domain() == old(local).spec_domain(),
        final(remote).spec_domain() == old(remote).spec_domain(),
        final(local).spec_max_value_size() == old(local).spec_max_value_size(),
        final(remote).spec_max_value_size() == old(remote).spec_max_value_size(),
        turn_outcome(
            old(cursor).spans(),
            final(cursor).spans(),
            old(local)@,
            old(remote)@,
            final(local)@,
            final(remote)@,
            w,
            now,
            threshold as nat,
            budget,
            report,
        ),
        final(cursor).marked() == old(cursor).marked() + marks(
            old(cursor).spans(),
            old(local)@,
            old(remote)@,
            w,
            threshold as nat,
            report.compared as nat,
        ),
{
    let ghost l0 = local@;
    let ghost r0 = remote@;
    let ghost spans0 = cursor.spans();
    let ghost marked0 = cursor.marked();
    let ghost t = threshold as nat;
    let ghost mut done: Set<nat> = Set::empty();
    let mut compared: u64 = 0;
    let mut pushed: u64 = 0;
    let mut pulled: u64 = 0;
    proof {
        old(local).lemma_contents();
        old(remote).lemma_contents();
        assert(l0 =~= absorbed(l0, r0, w, now, done));
        assert(r0 =~= absorbed(r0, l0, w, now, done));
        assert(owed(r0, l0, w, done) =~= Set::<nat>::empty());
        assert(owed(l0, r0, w, done) =~= Set::<nat>::empty());
        assert(pending(spans0, l0, r0, w, t) =~= done.union(pending(spans0, l0, r0, w, t)));
        assert(marked0 =~= marked0 + marks(spans0, l0, r0, w, t, 0));
    }
    while compared < budget && !cursor.is_converged()
        invariant
            cursor.wf(),
            local.wf(),
            remote.wf(),
            cursor.spec_watermark() == old(cursor).spec_watermark(),
            local.spec_domain() == old(local).spec_domain(),
            remote.spec_domain() == old(remote).spec_domain(),
            local.spec_max_value_size() == old(local).spec_max_value_size(),
            remote.spec_max_value_size() == old(remote).spec_max_value_size(),
            local.spec_max_value_size() == remote.spec_max_value_size(),
            l0 == old(local)@,
            r0 == old(remote)@,
            spans0 == old(cursor).spans(),
            marked0 == old(cursor).marked(),
            cursor.marked() == marked0 + marks(spans0, l0, r0, w, t, compared as nat),
            t == threshold as nat,
            l0.dom().finite(),
            r0.dom().finite(),
            compared <= budget,
            cursor.spans() == advance(spans0, l0, r0, w, t, compared as nat),
            compared > 0 ==> advance(spans0, l0, r0, w, t, (compared - 1) as nat).len() > 0,
            done.disjoint(covered(cursor.spans())),
            covered(cursor.spans()).subset_of(covered(spans0)),
            pending(spans0, l0, r0, w, t) == done.union(pending(cursor.spans(), l0, r0, w, t)),
            local@ == absorbed(l0, r0, w, now, done),
            remote@ == absorbed(r0, l0, w, now, done),
            owed(r0, l0, w, done).finite(),
            owed(l0, r0, w, done).finite(),
            pushed == owed(r0, l0, w, done).len(),
            pulled == owed(l0, r0, w, done).len(),
            potential(cursor.spans()) + compared <= potential(spans0),
        decreases budget - compared,
    {
        let ghost spans = cursor.spans();
        let ghost l_now = local@;
        let ghost r_now = remote@;
        match cursor.peek() {
            None => {},
            Some(range) => {
                let start = range.start();
                let end = range.end();
                let mine = local.count(w, &start, &end);
                let theirs = remote.count(w, &start, &end);
                proof {
                    let span = range@;
                    assert(done.disjoint(span_keys(span))) by {
                        assert forall|k: nat| span_keys(span).contains(k) implies !done.contains(
                            k,
                        ) by {
                            assert(spans[spans.len() - 1].contains(k));
                            assert(covered(spans).contains(k));
                        }
                    }
                    lemma_absorbed_frame(l0, r0, w, now, done, span);
                    lemma_absorbed_frame(r0, l0, w, now, done, span);
                    lemma_count_frame(l_now, l0, w, span);
                    lemma_count_frame(r_now, r0, w, span);
                    assert(mine == count_in(l0, w, span));
                    assert(theirs == count_in(r0, w, span));
                    lemma_settled(spans, l0, r0, w, t);
                    assert forall|j: int| 0 <= j < spans.len() - 1 implies (
                    #[trigger] spans[j]).disjoint(span) by {
                        assert(spans[j].disjoint(spans[spans.len() - 1]));
                    }
                    assert forall|i: int| 0 <= i < cursor.marked().len() implies (
                    #[trigger] cursor.marked()[i]).disjoint(span) by {
                        assert(cursor.marked()[i].disjoint(spans[spans.len() - 1]));
                    }
                }
                let ghost steps_before = compared as nat;
                let verdict = cursor.settle(mine, theirs, threshold);
                compared = compared + 1;
                proof {
                    assert(cursor.spans() == advance(spans0, l0, r0, w, t, compared as nat));
                    assert(advance(spans0, l0, r0, w, t, steps_before) == spans);
                }
                if verdict == Some(Verdict::Exchange) {
                    let sent = exchange_alike(local, remote, w, now, &range);
                    proof {
                        let region = span_keys(range@);
                        let more = done.union(region);
                        lemma_absorbed_twice(l0, r0, w, now, done, region);
                        lemma_absorbed_twice(r0, l0, w, now, done, region);
                        assert(owed(r_now, l_now, w, region) =~= owed(r0, l0, w, region)) by {
                            assert forall|k: nat| region.contains(k) implies (l_now.contains_key(k)
                                <==> l0.contains_key(k)) && (l_now.contains_key(k) ==> l_now[k]
                                == l0[k]) && (r_now.contains_key(k) <==> r0.contains_key(k)) && (
                            r_now.contains_key(k) ==> r_now[k] == r0[k]) by {
                                assert(range@.contains(k));
                            }
                        }
                        assert(owed(l_now, r_now, w, region) =~= owed(l0, r0, w, region)) by {
                            assert forall|k: nat| region.contains(k) implies (l_now.contains_key(k)
                                <==> l0.contains_key(k)) && (l_now.contains_key(k) ==> l_now[k]
                                == l0[k]) && (r_now.contains_key(k) <==> r0.contains_key(k)) && (
                            r_now.contains_key(k) ==> r_now[k] == r0[k]) by {
                                assert(range@.contains(k));
                            }
                        }
                        lemma_owed_union(r0, l0, w, done, region);
                        lemma_owed_union(l0, r0, w, done, region);
                        local.lemma_contents();
                        remote.lemma_contents();
                        assert(owed(r0, l0, w, more).subset_of(remote@.dom()));
                        assert(owed(l0, r0, w, more).subset_of(local@.dom()));
                        vstd::set_lib::lemma_len_subset(owed(r0, l0, w, more), remote@.dom());
                        vstd::set_lib::lemma_len_subset(owed(l0, r0, w, more), local@.dom());
                        done = more;
                    }
                    pushed = pushed + sent.pushed as u64;
                    pulled = pulled + sent.pulled as u64;
                    if sent.pushed > 0 || sent.pulled > 0 {
                        proof {
                            assert(cursor.spans() =~= spans.drop_last());
                        }
                        cursor.mark(range);
                    }
                    proof {
                        assert(sends(l0, r0, w, range@) == (sent.pushed > 0 || sent.pulled > 0));
                        assert(cursor.marked() =~= marked0 + marks(
                            spans0,
                            l0,
                            r0,
                            w,
                            t,
                            compared as nat,
                        ));
                    }
                } else {
                    proof {
                        assert(cursor.marked() =~= marked0 + marks(
                            spans0,
                            l0,
                            r0,
                            w,
                            t,
                            compared as nat,
                        ));
                    }
                }
            },
        }
    }
    let converged = cursor.is_converged();
    let report = TurnReport { compared, pushed, pulled, converged };
    proof {
        let after = cursor.spans();
        lemma_pending_covered(after, l0, r0, w, t);
        assert(turn_region(spans0, after, l0, r0, w, t) =~= done);
        assert(pending(after, l0, r0, w, t) =~= pending(spans0, l0, r0, w, t).intersect(
            covered(after),
        ));
    }
    report
}

/// One turn of the reconciliation of `local` with `remote`: compares up to
/// `config.turn_budget` ranges of the work list of `cursor`, as of the
/// smaller of the cursor's watermark and `remote_clock`, and sends each
/// side, with the time `now`, what a key-by-key comparison shows it to
/// lack. Stores that hold different data sets, or admit values of
/// different sizes, are not reconciled.
pub fn reconcile_turn(
    cursor: &mut Cursor,
    local: &mut MemoryStore,
    remote: &mut MemoryStore,
    now: i64,
    remote_clock: i64,
    config: &ReconcileConfig,
) -> (r: Result<TurnReport, ReconcileError>)
    requires
        old(cursor).wf(),
        old(local).wf(),
        old(remote).wf(),
    ensures
        final(cursor).wf(),
        final(local).wf(),
        final(remote).wf(),
        final(cursor).spec_watermark() == old(cursor).spec_watermark(),
        final(local).spec_domain() == old(local).spec_domain(),
        final(remote).spec_domain() == old(remote).spec_domain(),
        final(local).spec_max_value_size() == old(local).spec_max_value_size(),
        final(remote).spec_max_value_size() == old(remote).spec_max_value_size(),
        r == Err::<TurnReport, ReconcileError>(ReconcileError::DomainMismatch) <==> old(
            local,
        ).spec_domain() != old(remote).spec_domain(),
        r == Err::<TurnReport, ReconcileError>(ReconcileError::LimitMismatch) <==> old(
            local,
        ).spec_domain() == old(remote).spec_domain() && old(local).spec_max_value_size() != old(
            remote,
        ).spec_max_value_size(),
        r is Err ==> final(cursor).spans() == old(cursor).spans() && final(cursor).marked() == old(
            cursor,
        ).marked() && final(local)@ == old(local)@ && final(remote)@ == old(remote)@,
        r is Ok ==> final(cursor).marked() == old(cursor).marked() + marks(
            old(cursor).spans(),
            old(local)@,
            old(remote)@,
            spec_clamp(old(cursor).spec_watermark(), remote_clock),
            config.exact_threshold as nat,
            r->Ok_0.compared as nat,
        ),
        r matches Ok(report) ==> turn_outcome(
            old(cursor).spans(),
            final(cursor).spans(),
            old(local)@,
            old(remote)@,
            final(local)@,
            final(remote)@,
            spec_clamp(old(cursor).spec_watermark(), remote_clock),
            now,
            config.exact_threshold as nat,
            config.turn_budget,
            report,
        ),
{
    if !local.same_domain(remote) {
        return Err(ReconcileError::DomainMismatch);
    }
    if local.max_value_size() != remote.max_value_size() {
        return Err(ReconcileError::LimitMismatch);
    }
    let w = clamp(cursor.watermark(), remote_clock);
    Ok(run(cursor, local, remote, w, now, config.exact_threshold, config.turn_budget))
}

} // verus!
