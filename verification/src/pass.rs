//! What the turns of a reconciliation add up to: laws of convergence,
//! exactness and cost.

use crate::bisect::{
    absorbed, agree_on, count_in, detects_all, exchanged, lemma_absorbed_twice, lemma_count_frame,
    lemma_exchanged_frame, one_sided, owed, same_on, sees_no_more, span_keys, spec_judge, Verdict,
};
use crate::cursor::{
    covered, covers_all, frontier_wf, lemma_pending_covered, lemma_settled, pending,
};
use crate::key::key_space;
use crate::range::{pow2, KeyRange, Span};
use crate::reconcile::{advance, turn_outcome, turn_region, TurnReport};
use crate::store::{keys_within, seen, Entry};
use vstd::prelude::*;

verus! {

/// What some turns in a row, which compared `compared` ranges between
/// them, make of a work list and two sets of records.
pub open spec fn pass_outcome(
    before: Seq<Span>,
    after: Seq<Span>,
    l0: Map<nat, Entry>,
    r0: Map<nat, Entry>,
    l1: Map<nat, Entry>,
    r1: Map<nat, Entry>,
    w: i64,
    now: i64,
    threshold: nat,
    compared: nat,
    pushed: nat,
    pulled: nat,
) -> bool {
    let region = turn_region(before, after, l0, r0, w, threshold);
    &&& frontier_wf(before)
    &&& after == advance(before, l0, r0, w, threshold, compared)
    &&& compared > 0 ==> advance(before, l0, r0, w, threshold, (compared - 1) as nat).len() > 0
    &&& l1 == absorbed(l0, r0, w, now, region)
    &&& r1 == absorbed(r0, l0, w, now, region)
    &&& owed(r0, l0, w, region).finite()
    &&& owed(l0, r0, w, region).finite()
    &&& pushed == owed(r0, l0, w, region).len()
    &&& pulled == owed(l0, r0, w, region).len()
}

/// The keys of `span` about which the two sides differ.
pub open spec fn differing(a: Map<nat, Entry>, b: Map<nat, Entry>, w: i64, span: Span) -> Set<nat> {
    Set::new(|k: nat| span.contains(k) && one_sided(a, b, w, k))
}

/// Number of ranges that bisection of `span` compares.
pub open spec fn comparisons(
    a: Map<nat, Entry>,
    b: Map<nat, Entry>,
    w: i64,
    threshold: nat,
    span: Span,
) -> nat
    decreases span.width(),
{
    if span.wf() && spec_judge(span, count_in(a, w, span), count_in(b, w, span), threshold)
        == Verdict::Split {
        1 + comparisons(a, b, w, threshold, span.first_half()) + comparisons(
            a,
            b,
            w,
            threshold,
            span.second_half(),
        )
    } else {
        1
    }
}

/// Comparing `m` ranges and then `n` more is comparing `m + n`.
pub proof fn lemma_advance_add(
    spans: Seq<Span>,
    a: Map<nat, Entry>,
    b: Map<nat, Entry>,
    w: i64,
    threshold: nat,
    m: nat,
    n: nat,
)
    ensures
        advance(advance(spans, a, b, w, threshold, m), a, b, w, threshold, n) == advance(
            spans,
            a,
            b,
            w,
            threshold,
            m + n,
        ),
    decreases n,
{
    if n > 0 {
        lemma_advance_add(spans, a, b, w, threshold, m, (n - 1) as nat);
    }
}

/// The work list stays in order while ranges are compared, covers no key
/// that it did not cover before, and once empty stays empty.
pub proof fn lemma_advance_wf(
    spans: Seq<Span>,
    a: Map<nat, Entry>,
    b: Map<nat, Entry>,
    w: i64,
    threshold: nat,
    n: nat,
)
    requires
        frontier_wf(spans),
    ensures
        frontier_wf(advance(spans, a, b, w, threshold, n)),
        covered(advance(spans, a, b, w, threshold, n)).subset_of(covered(spans)),
        pending(advance(spans, a, b, w, threshold, n), a, b, w, threshold).subset_of(
            pending(spans, a, b, w, threshold),
        ),
        forall|m: nat|
            m <= n && advance(spans, a, b, w, threshold, m).len() == 0 ==> advance(
                spans,
                a,
                b,
                w,
                threshold,
                n,
            ).len() == 0,
    decreases n,
{
    if n > 0 {
        let k = (n - 1) as nat;
        lemma_advance_wf(spans, a, b, w, threshold, k);
        let prev = advance(spans, a, b, w, threshold, k);
        if prev.len() > 0 {
            lemma_settled(prev, a, b, w, threshold);
        }
    }
}

/// Which ranges are compared depends on the records of the ranges of the
/// work list alone.
pub proof fn lemma_advance_frame(
    spans: Seq<Span>,
    a: Map<nat, Entry>,
    b: Map<nat, Entry>,
    a2: Map<nat, Entry>,
    b2: Map<nat, Entry>,
    w: i64,
    threshold: nat,
    n: nat,
)
    requires
        frontier_wf(spans),
        same_on(a, a2, covered(spans)),
        same_on(b, b2, covered(spans)),
    ensures
        advance(spans, a, b, w, threshold, n) == advance(spans, a2, b2, w, threshold, n),
    decreases n,
{
    if n > 0 {
        let k = (n - 1) as nat;
        lemma_advance_frame(spans, a, b, a2, b2, w, threshold, k);
        lemma_advance_wf(spans, a, b, w, threshold, k);
        let prev = advance(spans, a, b, w, threshold, k);
        if prev.len() > 0 {
            let last = prev.last();
            assert forall|key: nat| span_keys(last).contains(key) implies covered(spans).contains(
                key,
            ) by {
                assert(prev[prev.len() - 1].contains(key));
                assert(covered(prev).contains(key));
            }
            lemma_agree_within(a, a2, covered(spans), last);
            lemma_agree_within(b, b2, covered(spans), last);
            lemma_count_frame(a, a2, w, last);
            lemma_count_frame(b, b2, w, last);
        }
    }
}

proof fn lemma_agree_within(
    a: Map<nat, Entry>,
    a2: Map<nat, Entry>,
    region: Set<nat>,
    span: Span,
)
    requires
        span_keys(span).subset_of(region),
        same_on(a, a2, region),
    ensures
        agree_on(a, a2, span),
{
    assert forall|k: nat|
        #![trigger a.contains_key(k)]
        #![trigger a2.contains_key(k)]
        span.contains(k) implies (a.contains_key(k) <==> a2.contains_key(k)) && (a.contains_key(k)
        ==> a[k] == a2[k]) by {
        assert(span_keys(span).contains(k));
        assert(region.contains(k));
    }
}

/// What is pending depends on the records of the ranges of the work list
/// alone.
pub proof fn lemma_pending_frame(
    spans: Seq<Span>,
    a: Map<nat, Entry>,
    b: Map<nat, Entry>,
    a2: Map<nat, Entry>,
    b2: Map<nat, Entry>,
    w: i64,
    threshold: nat,
)
    requires
        same_on(a, a2, covered(spans)),
        same_on(b, b2, covered(spans)),
    ensures
        pending(spans, a, b, w, threshold) == pending(spans, a2, b2, w, threshold),
{
    assert forall|i: int| 0 <= i < spans.len() implies exchanged(a, b, w, threshold, spans[i])
        == exchanged(a2, b2, w, threshold, spans[i]) by {
        assert forall|key: nat| span_keys(spans[i]).contains(key) implies covered(spans).contains(
            key,
        ) by {
            assert(spans[i].contains(key));
        }
        lemma_agree_within(a, a2, covered(spans), spans[i]);
        lemma_agree_within(b, b2, covered(spans), spans[i]);
        lemma_exchanged_frame(a, b, a2, b2, w, threshold, spans[i]);
    }
    assert(pending(spans, a, b, w, threshold) =~= pending(spans, a2, b2, w, threshold));
}

/// A turn is a pass of one turn.
pub proof fn lemma_turn_is_pass(
    before: Seq<Span>,
    after: Seq<Span>,
    l0: Map<nat, Entry>,
    r0: Map<nat, Entry>,
    l1: Map<nat, Entry>,
    r1: Map<nat, Entry>,
    w: i64,
    now: i64,
    threshold: nat,
    budget: u64,
    report: TurnReport,
)
    requires
        frontier_wf(before),
        l0.dom().finite(),
        r0.dom().finite(),
        turn_outcome(before, after, l0, r0, l1, r1, w, now, threshold, budget, report),
    ensures
        pass_outcome(
            before,
            after,
            l0,
            r0,
            l1,
            r1,
            w,
            now,
            threshold,
            report.compared as nat,
            report.pushed as nat,
            report.pulled as nat,
        ),
{
    let region = turn_region(before, after, l0, r0, w, threshold);
    lemma_owed_finite(r0, l0, w, region);
    lemma_owed_finite(l0, r0, w, region);
}

proof fn lemma_owed_finite(mine: Map<nat, Entry>, theirs: Map<nat, Entry>, w: i64, region: Set<nat>)
    requires
        theirs.dom().finite(),
    ensures
        owed(mine, theirs, w, region).finite(),
{
    assert(owed(mine, theirs, w, region).subset_of(theirs.dom()));
    vstd::set_lib::lemma_len_subset(owed(mine, theirs, w, region), theirs.dom());
}

/// Turns add up. A pass that is followed by another, with the same
/// watermark, time and threshold, makes one pass, which compares the
/// ranges of both and sends the records of both.
pub proof fn lemma_passes_add_up(
    s0: Seq<Span>,
    s1: Seq<Span>,
    s2: Seq<Span>,
    l0: Map<nat, Entry>,
    r0: Map<nat, Entry>,
    l1: Map<nat, Entry>,
    r1: Map<nat, Entry>,
    l2: Map<nat, Entry>,
    r2: Map<nat, Entry>,
    w: i64,
    now: i64,
    threshold: nat,
    first: (nat, nat, nat),
    second: (nat, nat, nat),
)
    requires
        pass_outcome(s0, s1, l0, r0, l1, r1, w, now, threshold, first.0, first.1, first.2),
        pass_outcome(s1, s2, l1, r1, l2, r2, w, now, threshold, second.0, second.1, second.2),
    ensures
        pass_outcome(
            s0,
            s2,
            l0,
            r0,
            l2,
            r2,
            w,
            now,
            threshold,
            first.0 + second.0,
            first.1 + second.1,
            first.2 + second.2,
        ),
{
    let t = threshold;
    let d1 = turn_region(s0, s1, l0, r0, w, t);
    let d2 = turn_region(s1, s2, l1, r1, w, t);
    let all = turn_region(s0, s2, l0, r0, w, t);
    lemma_advance_wf(s0, l0, r0, w, t, first.0);
    lemma_advance_wf(s1, l1, r1, w, t, second.0);
    lemma_pending_covered(s1, l0, r0, w, t);
    assert(same_on(l0, l1, covered(s1))) by {
        assert forall|k: nat| #![trigger covered(s1).contains(k)] covered(s1).contains(k) implies (
        l0.contains_key(k) <==> l1.contains_key(k)) && (l0.contains_key(k) ==> l0[k] == l1[k]) by {
            assert(!d1.contains(k));
        }
    }
    assert(same_on(r0, r1, covered(s1))) by {
        assert forall|k: nat| #![trigger covered(s1).contains(k)] covered(s1).contains(k) implies (
        r0.contains_key(k) <==> r1.contains_key(k)) && (r0.contains_key(k) ==> r0[k] == r1[k]) by {
            assert(!d1.contains(k));
        }
    }
    lemma_pending_frame(s1, l0, r0, l1, r1, w, t);
    lemma_advance_frame(s1, l0, r0, l1, r1, w, t, second.0);
    lemma_advance_add(s0, l0, r0, w, t, first.0, second.0);
    if second.0 > 0 {
        lemma_advance_frame(s1, l0, r0, l1, r1, w, t, (second.0 - 1) as nat);
        lemma_advance_add(s0, l0, r0, w, t, first.0, (second.0 - 1) as nat);
    }
    // What was pending after the first pass is what was pending before it
    // and is still covered.
    lemma_pending_left(s0, l0, r0, w, t, first.0);
    assert(all =~= d1.union(d2)) by {
        assert forall|k: nat| all.contains(k) <==> d1.contains(k) || d2.contains(k) by {
            if covered(s2).contains(k) {
                assert(covered(s1).contains(k));
            }
        }
    }
    assert(d1.disjoint(d2)) by {
        lemma_pending_covered(s1, l1, r1, w, t);
    }
    lemma_absorbed_twice(l0, r0, w, now, d1, d2);
    lemma_absorbed_twice(r0, l0, w, now, d1, d2);
    assert(owed(r1, l1, w, d2) =~= owed(r0, l0, w, d2)) by {
        lemma_pending_covered(s1, l1, r1, w, t);
    }
    assert(owed(l1, r1, w, d2) =~= owed(l0, r0, w, d2)) by {
        lemma_pending_covered(s1, l1, r1, w, t);
    }
    assert(owed(r0, l0, w, all) =~= owed(r0, l0, w, d1) + owed(r0, l0, w, d2));
    assert(owed(l0, r0, w, all) =~= owed(l0, r0, w, d1) + owed(l0, r0, w, d2));
    assert(owed(r0, l0, w, d1).disjoint(owed(r0, l0, w, d2)));
    assert(owed(l0, r0, w, d1).disjoint(owed(l0, r0, w, d2)));
    vstd::set_lib::lemma_set_disjoint_lens(owed(r0, l0, w, d1), owed(r0, l0, w, d2));
    vstd::set_lib::lemma_set_disjoint_lens(owed(l0, r0, w, d1), owed(l0, r0, w, d2));
    vstd::set::axiom_set_union_finite(owed(r0, l0, w, d1), owed(r0, l0, w, d2));
    vstd::set::axiom_set_union_finite(owed(l0, r0, w, d1), owed(l0, r0, w, d2));
}

/// What is pending after some comparisons is what was pending before them
/// and is still covered.
pub proof fn lemma_pending_left(
    spans: Seq<Span>,
    a: Map<nat, Entry>,
    b: Map<nat, Entry>,
    w: i64,
    threshold: nat,
    n: nat,
)
    requires
        frontier_wf(spans),
    ensures
        pending(advance(spans, a, b, w, threshold, n), a, b, w, threshold) == pending(
            spans,
            a,
            b,
            w,
            threshold,
        ).intersect(covered(advance(spans, a, b, w, threshold, n))),
    decreases n,
{
    let after = advance(spans, a, b, w, threshold, n);
    lemma_pending_covered(after, a, b, w, threshold);
    lemma_pending_covered(spans, a, b, w, threshold);
    if n > 0 {
        let k = (n - 1) as nat;
        let prev = advance(spans, a, b, w, threshold, k);
        lemma_pending_left(spans, a, b, w, threshold, k);
        lemma_advance_wf(spans, a, b, w, threshold, k);
        lemma_pending_covered(prev, a, b, w, threshold);
        if prev.len() > 0 {
            lemma_settled(prev, a, b, w, threshold);
        }
    }
    let want = pending(spans, a, b, w, threshold).intersect(covered(after));
    assert forall|k: nat| pending(after, a, b, w, threshold).contains(k) <==> want.contains(k) by {
        if n > 0 {
            let prev = advance(spans, a, b, w, threshold, (n - 1) as nat);
            if prev.len() > 0 {
                let range = prev.last();
                if want.contains(k) {
                    assert(covered(prev).contains(k));
                    assert(pending(prev, a, b, w, threshold).contains(k));
                    let verdict = spec_judge(
                        range,
                        count_in(a, w, range),
                        count_in(b, w, range),
                        threshold,
                    );
                    if !pending(after, a, b, w, threshold).contains(k) {
                        assert(verdict == Verdict::Exchange && span_keys(range).contains(k));
                        assert(covered(after).disjoint(span_keys(range)));
                    }
                }
                if pending(after, a, b, w, threshold).contains(k) {
                    assert(pending(prev, a, b, w, threshold).contains(k));
                }
            }
        }
    }
    assert(pending(after, a, b, w, threshold) =~= want);
}

/// Whether bisection of the ranges of the work list reaches every key
/// about which the two sides differ.
pub open spec fn reaches_all(
    spans: Seq<Span>,
    a: Map<nat, Entry>,
    b: Map<nat, Entry>,
    w: i64,
    threshold: nat,
) -> bool {
    forall|k: nat|
        k < key_space() && one_sided(a, b, w, k) ==> pending(spans, a, b, w, threshold).contains(k)
}

/// A work list of the whole key space alone reaches every key of
/// difference where bisection of the key space does.
pub proof fn lemma_fresh_reaches(a: Map<nat, Entry>, b: Map<nat, Entry>, w: i64, threshold: nat)
    requires
        detects_all(a, b, w, threshold, KeyRange::spec_full()),
    ensures
        reaches_all(seq![KeyRange::spec_full()], a, b, w, threshold),
{
    let full = KeyRange::spec_full();
    let spans = seq![full];
    crate::key::lemma_pow256_positive(64);
    assert forall|k: nat| k < key_space() && one_sided(a, b, w, k) implies pending(
        spans,
        a,
        b,
        w,
        threshold,
    ).contains(k) by {
        assert(full.contains(k));
        assert(exchanged(a, b, w, threshold, spans[0]).contains(k));
    }
}

/// Where one side sees every key that the other sees, a work list that
/// covers the key space reaches every key about which the two differ.
pub proof fn lemma_one_sided_reaches(
    spans: Seq<Span>,
    a: Map<nat, Entry>,
    b: Map<nat, Entry>,
    w: i64,
    threshold: nat,
)
    requires
        a.dom().finite(),
        b.dom().finite(),
        frontier_wf(spans),
        covers_all(spans),
        sees_no_more(a, b, w) || sees_no_more(b, a, w),
    ensures
        reaches_all(spans, a, b, w, threshold),
{
    assert forall|k: nat| k < key_space() && one_sided(a, b, w, k) implies pending(
        spans,
        a,
        b,
        w,
        threshold,
    ).contains(k) by {
        assert(covered(spans).contains(k));
        let i = choose|i: int| 0 <= i < spans.len() && (#[trigger] spans[i]).contains(k);
        crate::bisect::lemma_one_sided_detects(a, b, w, threshold, spans[i]);
        assert(exchanged(a, b, w, threshold, spans[i]).contains(k));
    }
}

/// Convergence. A pass that leaves no range to compare has compared, key
/// by key, every range that bisection of its work list reaches. Where
/// that is every key about which the two sides differed, and the two held
/// the same value wherever both saw a key, every key that one of them saw
/// is then held by both with one value, the value of the side that saw
/// it, and the records sent are one for every key of difference.
pub proof fn lemma_convergence(
    before: Seq<Span>,
    l0: Map<nat, Entry>,
    r0: Map<nat, Entry>,
    l1: Map<nat, Entry>,
    r1: Map<nat, Entry>,
    w: i64,
    now: i64,
    threshold: nat,
    compared: nat,
    pushed: nat,
    pulled: nat,
)
    requires
        pass_outcome(
            before,
            Seq::empty(),
            l0,
            r0,
            l1,
            r1,
            w,
            now,
            threshold,
            compared,
            pushed,
            pulled,
        ),
        reaches_all(before, l0, r0, w, threshold),
        forall|k: nat| l0.contains_key(k) || r0.contains_key(k) ==> k < key_space(),
        forall|k: nat| seen(l0, w, k) && seen(r0, w, k) ==> l0[k].value == r0[k].value,
    ensures
        forall|k: nat|
            seen(l0, w, k) || seen(r0, w, k) ==> l1.contains_key(k) && r1.contains_key(k)
                && l1[k].value == r1[k].value && l1[k].value == (if seen(l0, w, k) {
                l0[k].value
            } else {
                r0[k].value
            }),
        pushed == Set::new(|k: nat| seen(l0, w, k) && !seen(r0, w, k)).len(),
        pulled == Set::new(|k: nat| seen(r0, w, k) && !seen(l0, w, k)).len(),
{
    let region = turn_region(before, Seq::<Span>::empty(), l0, r0, w, threshold);
    assert(region =~= pending(before, l0, r0, w, threshold));
    assert forall|k: nat| seen(l0, w, k) || seen(r0, w, k) implies l1.contains_key(k)
        && r1.contains_key(k) && l1[k].value == r1[k].value && l1[k].value == (if seen(l0, w, k) {
        l0[k].value
    } else {
        r0[k].value
    }) by {
        if one_sided(l0, r0, w, k) {
            assert(region.contains(k));
        }
    }
    assert(owed(r0, l0, w, region) =~= Set::new(|k: nat| seen(l0, w, k) && !seen(r0, w, k))) by {
        assert forall|k: nat| seen(l0, w, k) && !seen(r0, w, k) implies region.contains(k) by {
            assert(one_sided(l0, r0, w, k));
        }
    }
    assert(owed(l0, r0, w, region) =~= Set::new(|k: nat| seen(r0, w, k) && !seen(l0, w, k))) by {
        assert forall|k: nat| seen(r0, w, k) && !seen(l0, w, k) implies region.contains(k) by {
            assert(one_sided(l0, r0, w, k));
        }
    }
}

/// Bisection of a range that is on top of a work list takes as many
/// comparisons as `comparisons` says, and then the rest of the list is
/// left.
pub proof fn lemma_comparisons(
    base: Seq<Span>,
    span: Span,
    a: Map<nat, Entry>,
    b: Map<nat, Entry>,
    w: i64,
    threshold: nat,
)
    requires
        span.wf(),
    ensures
        advance(base.push(span), a, b, w, threshold, comparisons(a, b, w, threshold, span)) == base,
    decreases span.width(),
{
    let top = base.push(span);
    let one = advance(top, a, b, w, threshold, 1);
    assert(advance(top, a, b, w, threshold, 0) == top);
    assert(top.last() == span);
    assert(top.drop_last() =~= base);
    if span.wf() && spec_judge(span, count_in(a, w, span), count_in(b, w, span), threshold)
        == Verdict::Split {
        span.lemma_halves();
        let first = span.first_half();
        let second = span.second_half();
        let c1 = comparisons(a, b, w, threshold, first);
        let c2 = comparisons(a, b, w, threshold, second);
        assert(one == base.push(second).push(first));
        lemma_comparisons(base.push(second), first, a, b, w, threshold);
        lemma_comparisons(base, second, a, b, w, threshold);
        lemma_advance_add(top, a, b, w, threshold, 1, c1);
        lemma_advance_add(top, a, b, w, threshold, 1 + c1, c2);
    } else {
        assert(one == base);
    }
}

proof fn lemma_differing_finite(a: Map<nat, Entry>, b: Map<nat, Entry>, w: i64, span: Span)
    requires
        a.dom().finite(),
        b.dom().finite(),
    ensures
        differing(a, b, w, span).finite(),
{
    let both = a.dom().union(b.dom());
    vstd::set::axiom_set_union_finite(a.dom(), b.dom());
    assert(differing(a, b, w, span).subset_of(both));
    vstd::set_lib::lemma_len_subset(differing(a, b, w, span), both);
}

/// The cost of bisection is bounded by the divergence. A range of at most
/// `2^e` keys is bisected with at most `2 * e` comparisons for every key
/// about which the two sides differ, and one more.
pub proof fn lemma_cost(
    a: Map<nat, Entry>,
    b: Map<nat, Entry>,
    w: i64,
    threshold: nat,
    span: Span,
    e: nat,
)
    requires
        a.dom().finite(),
        b.dom().finite(),
        span.width() <= pow2(e),
    ensures
        differing(a, b, w, span).finite(),
        comparisons(a, b, w, threshold, span) <= 2 * e * differing(a, b, w, span).len() + 1,
    decreases span.width(),
{
    lemma_differing_finite(a, b, w, span);
    let n = differing(a, b, w, span).len();
    assert(2 * e * n >= 0) by (nonlinear_arith);
    if span.wf() && spec_judge(span, count_in(a, w, span), count_in(b, w, span), threshold)
        == Verdict::Split {
        span.lemma_halves();
        let ka = keys_within(a, w, span.lo, span.hi);
        let kb = keys_within(b, w, span.lo, span.hi);
        if n == 0 {
            vstd::set_lib::lemma_set_empty_equivalency_len(differing(a, b, w, span));
            assert forall|k: nat| ka.contains(k) <==> kb.contains(k) by {
                if ka.contains(k) != kb.contains(k) {
                    assert(differing(a, b, w, span).contains(k));
                }
            }
            assert(ka =~= kb);
            assert(false);
        }
        assert(e >= 1) by {
            if e == 0 {
                assert(pow2(0) == 1);
            }
        }
        let first = span.first_half();
        let second = span.second_half();
        let e1 = (e - 1) as nat;
        assert(pow2(e) == 2 * pow2(e1));
        lemma_cost(a, b, w, threshold, first, e1);
        lemma_cost(a, b, w, threshold, second, e1);
        let d1 = differing(a, b, w, first);
        let d2 = differing(a, b, w, second);
        assert(differing(a, b, w, span) =~= d1 + d2);
        assert(d1.disjoint(d2));
        vstd::set_lib::lemma_set_disjoint_lens(d1, d2);
        let n1 = d1.len();
        let n2 = d2.len();
        assert(2 * e1 * n1 + 2 * e1 * n2 + 3 <= 2 * e * n + 1) by (nonlinear_arith)
            requires
                n == n1 + n2,
                n >= 1,
                e == e1 + 1,
        ;
    }
}

/// Number of ranges that bisection of all ranges of a work list compares.
pub open spec fn total_comparisons(
    spans: Seq<Span>,
    a: Map<nat, Entry>,
    b: Map<nat, Entry>,
    w: i64,
    threshold: nat,
) -> nat
    decreases spans.len(),
{
    if spans.len() == 0 {
        0
    } else {
        total_comparisons(spans.drop_last(), a, b, w, threshold) + comparisons(
            a,
            b,
            w,
            threshold,
            spans.last(),
        )
    }
}

/// The keys of `region` about which the two sides differ.
pub open spec fn differing_in(a: Map<nat, Entry>, b: Map<nat, Entry>, w: i64, region: Set<nat>) -> Set<
    nat,
> {
    Set::new(|k: nat| region.contains(k) && one_sided(a, b, w, k))
}

proof fn lemma_differing_in_finite(
    a: Map<nat, Entry>,
    b: Map<nat, Entry>,
    w: i64,
    region: Set<nat>,
)
    requires
        a.dom().finite(),
        b.dom().finite(),
    ensures
        differing_in(a, b, w, region).finite(),
        differing_in(a, b, w, region).len() <= a.dom().union(b.dom()).len(),
{
    let both = a.dom().union(b.dom());
    vstd::set::axiom_set_union_finite(a.dom(), b.dom());
    assert(differing_in(a, b, w, region).subset_of(both));
    vstd::set_lib::lemma_len_subset(differing_in(a, b, w, region), both);
}

/// After as many comparisons as bisection of all its ranges takes, a work
/// list is empty.
pub proof fn lemma_total_comparisons(
    spans: Seq<Span>,
    a: Map<nat, Entry>,
    b: Map<nat, Entry>,
    w: i64,
    threshold: nat,
)
    requires
        frontier_wf(spans),
    ensures
        advance(spans, a, b, w, threshold, total_comparisons(spans, a, b, w, threshold)).len() == 0,
    decreases spans.len(),
{
    if spans.len() > 0 {
        let base = spans.drop_last();
        let last = spans.last();
        assert(spans =~= base.push(last));
        assert(frontier_wf(base)) by {
            assert forall|i: int| 0 <= i < base.len() implies (#[trigger] base[i]).wf() by {
                assert(spans[i].wf());
            }
            assert forall|i: int, j: int| 0 <= i < j < base.len() implies (
            #[trigger] base[i]).disjoint(#[trigger] base[j]) by {
                assert(spans[i].disjoint(spans[j]));
            }
        }
        assert(spans[spans.len() - 1].wf());
        lemma_comparisons(base, last, a, b, w, threshold);
        lemma_total_comparisons(base, a, b, w, threshold);
        lemma_advance_add(
            spans,
            a,
            b,
            w,
            threshold,
            comparisons(a, b, w, threshold, last),
            total_comparisons(base, a, b, w, threshold),
        );
    }
}

/// Bisection of all ranges of a work list takes at most 1024 comparisons
/// for every key of the list about which the two sides differ, and one
/// more for every range.
pub proof fn lemma_total_cost(
    spans: Seq<Span>,
    a: Map<nat, Entry>,
    b: Map<nat, Entry>,
    w: i64,
    threshold: nat,
)
    requires
        a.dom().finite(),
        b.dom().finite(),
        frontier_wf(spans),
    ensures
        differing_in(a, b, w, covered(spans)).finite(),
        total_comparisons(spans, a, b, w, threshold) <= 1024 * differing_in(
            a,
            b,
            w,
            covered(spans),
        ).len() + spans.len(),
    decreases spans.len(),
{
    lemma_differing_in_finite(a, b, w, covered(spans));
    if spans.len() > 0 {
        let base = spans.drop_last();
        let last = spans.last();
        assert(spans =~= base.push(last));
        assert(frontier_wf(base)) by {
            assert forall|i: int| 0 <= i < base.len() implies (#[trigger] base[i]).wf() by {
                assert(spans[i].wf());
            }
            assert forall|i: int, j: int| 0 <= i < j < base.len() implies (
            #[trigger] base[i]).disjoint(#[trigger] base[j]) by {
                assert(spans[i].disjoint(spans[j]));
            }
        }
        assert(spans[spans.len() - 1].wf());
        lemma_total_cost(base, a, b, w, threshold);
        crate::range::lemma_key_space_is_pow2();
        lemma_cost(a, b, w, threshold, last, 512);
        crate::cursor::lemma_covered_push(base, last);
        let d0 = differing_in(a, b, w, covered(base));
        let d1 = differing(a, b, w, last);
        assert(differing_in(a, b, w, covered(spans)) =~= d0 + d1);
        assert(d0.disjoint(d1)) by {
            assert forall|k: nat| d0.contains(k) implies !d1.contains(k) by {
                let i = choose|i: int| 0 <= i < base.len() && (#[trigger] base[i]).contains(k);
                assert(spans[i].disjoint(spans[spans.len() - 1]));
            }
        }
        vstd::set_lib::lemma_set_disjoint_lens(d0, d1);
        let n0 = d0.len();
        let n1 = d1.len();
        let n = differing_in(a, b, w, covered(spans)).len();
        let c = comparisons(a, b, w, threshold, last);
        let rest = total_comparisons(base, a, b, w, threshold);
        let total = total_comparisons(spans, a, b, w, threshold);
        assert(total <= 1024 * n + spans.len()) by (nonlinear_arith)
            requires
                total == rest + c,
                rest <= 1024 * n0 + base.len(),
                c <= 2 * 512 * n1 + 1,
                n == n0 + n1,
                spans.len() == base.len() + 1,
        ;
    }
}

/// The cost of a pass. A pass compares at most 1024 ranges for every key
/// about which the two sides differ, and one more for every range that
/// its work list started with, however many records the two sides hold.
pub proof fn lemma_pass_cost(
    before: Seq<Span>,
    after: Seq<Span>,
    l0: Map<nat, Entry>,
    r0: Map<nat, Entry>,
    l1: Map<nat, Entry>,
    r1: Map<nat, Entry>,
    w: i64,
    now: i64,
    threshold: nat,
    compared: nat,
    pushed: nat,
    pulled: nat,
)
    requires
        l0.dom().finite(),
        r0.dom().finite(),
        pass_outcome(before, after, l0, r0, l1, r1, w, now, threshold, compared, pushed, pulled),
    ensures
        differing(l0, r0, w, KeyRange::spec_full()).finite(),
        compared <= 1024 * differing(l0, r0, w, KeyRange::spec_full()).len() + before.len(),
{
    let full = KeyRange::spec_full();
    lemma_differing_finite(l0, r0, w, full);
    lemma_total_cost(before, l0, r0, w, threshold);
    lemma_total_comparisons(before, l0, r0, w, threshold);
    let c = total_comparisons(before, l0, r0, w, threshold);
    if compared > c {
        lemma_advance_wf(before, l0, r0, w, threshold, (compared - 1) as nat);
        assert(advance(before, l0, r0, w, threshold, c).len() == 0);
    }
    let inside = differing_in(l0, r0, w, covered(before));
    assert(inside.subset_of(differing(l0, r0, w, full))) by {
        assert forall|k: nat| inside.contains(k) implies differing(l0, r0, w, full).contains(k) by {
            let i = choose|i: int| 0 <= i < before.len() && (#[trigger] before[i]).contains(k);
            assert(before[i].wf());
        }
    }
    vstd::set_lib::lemma_len_subset(inside, differing(l0, r0, w, full));
    assert(1024 * inside.len() <= 1024 * differing(l0, r0, w, full).len()) by (nonlinear_arith)
        requires
            inside.len() <= differing(l0, r0, w, full).len(),
    ;
}

} // verus!
