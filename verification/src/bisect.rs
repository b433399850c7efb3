//! What range bisection with count digests finds, as mathematics.
//!
//! Two stores are compared range by range as of one watermark. A range in
//! which neither side sees a key is left alone. A range of one key, or one
//! in which neither side sees more keys than the threshold, is compared
//! key by key. Any other range with equal counts on both sides is taken to
//! agree, and one with different counts is cut in two.

use crate::range::Span;
use crate::store::{keys_within, seen, Entry};
use vstd::prelude::*;

verus! {

/// What is done with a range once both sides have counted it.
#[derive(Clone, Copy, Debug, PartialEq, Eq, Structural)]
pub enum Verdict {
    /// The range is taken to agree; nothing is exchanged.
    Converged,
    /// The range is compared key by key.
    Exchange,
    /// The range is cut at its midpoint and the halves are compared.
    Split,
}

/// The verdict on a range in which one side sees `mine` keys and the other
/// `theirs`, with exact comparison at or below `threshold` keys.
pub open spec fn spec_judge(span: Span, mine: nat, theirs: nat, threshold: nat) -> Verdict {
    if mine == 0 && theirs == 0 {
        Verdict::Converged
    } else if span.is_single() || (mine <= threshold && theirs <= threshold) {
        Verdict::Exchange
    } else if mine == theirs {
        Verdict::Converged
    } else {
        Verdict::Split
    }
}

/// Number of keys of `span` that `m` sees as of `w`.
pub open spec fn count_in(m: Map<nat, Entry>, w: i64, span: Span) -> nat {
    keys_within(m, w, span.lo, span.hi).len()
}

/// The keys of `span`.
pub open spec fn span_keys(span: Span) -> Set<nat> {
    Set::new(|k: nat| span.contains(k))
}

/// The keys that lie in a range which bisection, started on `span`, compares
/// key by key.
pub open spec fn exchanged(
    a: Map<nat, Entry>,
    b: Map<nat, Entry>,
    w: i64,
    threshold: nat,
    span: Span,
) -> Set<nat>
    decreases span.width(),
{
    if !span.wf() {
        Set::empty()
    } else {
        match spec_judge(span, count_in(a, w, span), count_in(b, w, span), threshold) {
            Verdict::Converged => Set::empty(),
            Verdict::Exchange => span_keys(span),
            Verdict::Split => exchanged(a, b, w, threshold, span.lower()).union(
                exchanged(a, b, w, threshold, span.upper()),
            ),
        }
    }
}

/// The keys of `region` that `theirs` sees as of `w` and `mine` does not:
/// what `mine` is sent when `region` is compared key by key.
pub open spec fn owed(mine: Map<nat, Entry>, theirs: Map<nat, Entry>, w: i64, region: Set<nat>) -> Set<
    nat,
> {
    Set::new(|k: nat| region.contains(k) && seen(theirs, w, k) && !seen(mine, w, k))
}

/// The records of `mine` after it has stored, at time `now`, the value that
/// `theirs` holds for each key of `keys`.
pub open spec fn received(
    mine: Map<nat, Entry>,
    theirs: Map<nat, Entry>,
    now: i64,
    keys: Set<nat>,
) -> Map<nat, Entry> {
    Map::new(
        |k: nat| mine.contains_key(k) || keys.contains(k),
        |k: nat|
            if keys.contains(k) && !(mine.contains_key(k) && mine[k].value == theirs[k].value) {
                Entry { value: theirs[k].value, stamp: now }
            } else {
                mine[k]
            },
    )
}

/// The records of `mine` after `region` has been compared key by key with
/// `theirs` as of `w`.
pub open spec fn absorbed(
    mine: Map<nat, Entry>,
    theirs: Map<nat, Entry>,
    w: i64,
    now: i64,
    region: Set<nat>,
) -> Map<nat, Entry> {
    received(mine, theirs, now, owed(mine, theirs, w, region))
}

/// Whether two sets of records hold the same entry, or none, for every key
/// of `span`.
pub open spec fn agree_on(m: Map<nat, Entry>, n: Map<nat, Entry>, span: Span) -> bool {
    forall|k: nat|
        #![trigger m.contains_key(k)]
        #![trigger n.contains_key(k)]
        span.contains(k) ==> (m.contains_key(k) <==> n.contains_key(k)) && (m.contains_key(k)
            ==> m[k] == n[k])
}

/// Whether two sets of records hold the same entry, or none, for every key
/// of `region`.
pub open spec fn same_on(m: Map<nat, Entry>, n: Map<nat, Entry>, region: Set<nat>) -> bool {
    forall|k: nat|
        #![trigger region.contains(k)]
        region.contains(k) ==> (m.contains_key(k) <==> n.contains_key(k)) && (m.contains_key(k)
            ==> m[k] == n[k])
}

/// Whether the two sides differ about `k` as of `w`: one sees it and the
/// other does not.
pub open spec fn one_sided(a: Map<nat, Entry>, b: Map<nat, Entry>, w: i64, k: nat) -> bool {
    seen(a, w, k) != seen(b, w, k)
}

/// Whether bisection of the whole of `span` reaches every key about which
/// the two sides differ.
pub open spec fn detects_all(
    a: Map<nat, Entry>,
    b: Map<nat, Entry>,
    w: i64,
    threshold: nat,
    span: Span,
) -> bool {
    forall|k: nat|
        span.contains(k) && one_sided(a, b, w, k) ==> exchanged(a, b, w, threshold, span).contains(k)
}

/// Whether every key that `a` sees, `b` sees too.
pub open spec fn sees_no_more(a: Map<nat, Entry>, b: Map<nat, Entry>, w: i64) -> bool {
    forall|k: nat| seen(a, w, k) ==> seen(b, w, k)
}

/// The keys seen in a range of finitely many records are finitely many.
pub proof fn lemma_keys_within_finite(m: Map<nat, Entry>, w: i64, lo: nat, hi: nat)
    requires
        m.dom().finite(),
    ensures
        keys_within(m, w, lo, hi).finite(),
        keys_within(m, w, lo, hi).len() <= m.dom().len(),
{
    assert(keys_within(m, w, lo, hi).subset_of(m.dom()));
    vstd::set_lib::lemma_len_subset(keys_within(m, w, lo, hi), m.dom());
}

/// Records that are the same on a range are counted the same there.
pub proof fn lemma_count_frame(m: Map<nat, Entry>, n: Map<nat, Entry>, w: i64, span: Span)
    requires
        agree_on(m, n, span),
    ensures
        count_in(m, w, span) == count_in(n, w, span),
{
    assert(keys_within(m, w, span.lo, span.hi) =~= keys_within(n, w, span.lo, span.hi));
}

/// Bisection of a range reaches keys of that range only.
pub proof fn lemma_exchanged_within(
    a: Map<nat, Entry>,
    b: Map<nat, Entry>,
    w: i64,
    threshold: nat,
    span: Span,
)
    ensures
        forall|k: nat| exchanged(a, b, w, threshold, span).contains(k) ==> span.contains(k),
    decreases span.width(),
{
    if span.wf() {
        match spec_judge(span, count_in(a, w, span), count_in(b, w, span), threshold) {
            Verdict::Split => {
                span.lemma_halves();
                lemma_exchanged_within(a, b, w, threshold, span.lower());
                lemma_exchanged_within(a, b, w, threshold, span.upper());
            },
            _ => {},
        }
    }
}

proof fn lemma_agree_on_halves(m: Map<nat, Entry>, n: Map<nat, Entry>, span: Span)
    requires
        span.wf(),
        !span.is_single(),
        agree_on(m, n, span),
    ensures
        agree_on(m, n, span.lower()),
        agree_on(m, n, span.upper()),
{
    assert forall|k: nat|
        #![trigger m.contains_key(k)]
        #![trigger n.contains_key(k)]
        span.lower().contains(k) implies (m.contains_key(k) <==> n.contains_key(k)) && (
    m.contains_key(k) ==> m[k] == n[k]) by {
        assert(span.contains(k));
    }
    assert forall|k: nat|
        #![trigger m.contains_key(k)]
        #![trigger n.contains_key(k)]
        span.upper().contains(k) implies (m.contains_key(k) <==> n.contains_key(k)) && (
    m.contains_key(k) ==> m[k] == n[k]) by {
        assert(span.contains(k));
    }
}

/// What bisection of a range reaches depends on the records of that range
/// alone.
pub proof fn lemma_exchanged_frame(
    a: Map<nat, Entry>,
    b: Map<nat, Entry>,
    a2: Map<nat, Entry>,
    b2: Map<nat, Entry>,
    w: i64,
    threshold: nat,
    span: Span,
)
    requires
        agree_on(a, a2, span),
        agree_on(b, b2, span),
    ensures
        exchanged(a, b, w, threshold, span) == exchanged(a2, b2, w, threshold, span),
    decreases span.width(),
{
    if span.wf() {
        lemma_count_frame(a, a2, w, span);
        lemma_count_frame(b, b2, w, span);
        match spec_judge(span, count_in(a, w, span), count_in(b, w, span), threshold) {
            Verdict::Split => {
                span.lemma_halves();
                lemma_agree_on_halves(a, a2, span);
                lemma_agree_on_halves(b, b2, span);
                lemma_exchanged_frame(a, b, a2, b2, w, threshold, span.lower());
                lemma_exchanged_frame(a, b, a2, b2, w, threshold, span.upper());
            },
            _ => {},
        }
    }
}

/// Where one side sees every key that the other sees, bisection reaches
/// every key about which the two differ.
pub proof fn lemma_one_sided_detects(
    a: Map<nat, Entry>,
    b: Map<nat, Entry>,
    w: i64,
    threshold: nat,
    span: Span,
)
    requires
        a.dom().finite(),
        b.dom().finite(),
        span.wf(),
        sees_no_more(a, b, w) || sees_no_more(b, a, w),
    ensures
        detects_all(a, b, w, threshold, span),
    decreases span.width(),
{
    let ka = keys_within(a, w, span.lo, span.hi);
    let kb = keys_within(b, w, span.lo, span.hi);
    lemma_keys_within_finite(a, w, span.lo, span.hi);
    lemma_keys_within_finite(b, w, span.lo, span.hi);
    match spec_judge(span, count_in(a, w, span), count_in(b, w, span), threshold) {
        Verdict::Converged => {
            assert(ka.len() == kb.len());
            if sees_no_more(a, b, w) {
                assert(ka.subset_of(kb));
                vstd::set_lib::lemma_subset_equality(ka, kb);
            } else {
                assert(kb.subset_of(ka));
                vstd::set_lib::lemma_subset_equality(kb, ka);
            }
            assert(ka =~= kb);
            assert forall|k: nat| span.contains(k) && one_sided(a, b, w, k) implies false by {
                assert(ka.contains(k) == kb.contains(k));
            }
        },
        Verdict::Exchange => {},
        Verdict::Split => {
            span.lemma_halves();
            lemma_one_sided_detects(a, b, w, threshold, span.lower());
            lemma_one_sided_detects(a, b, w, threshold, span.upper());
        },
    }
}

/// Where neither side sees more keys in a range than the threshold,
/// bisection reaches every key of it about which the two differ.
pub proof fn lemma_small_detects(
    a: Map<nat, Entry>,
    b: Map<nat, Entry>,
    w: i64,
    threshold: nat,
    span: Span,
)
    requires
        a.dom().finite(),
        b.dom().finite(),
        span.wf(),
        count_in(a, w, span) <= threshold,
        count_in(b, w, span) <= threshold,
    ensures
        detects_all(a, b, w, threshold, span),
{
    let ka = keys_within(a, w, span.lo, span.hi);
    let kb = keys_within(b, w, span.lo, span.hi);
    lemma_keys_within_finite(a, w, span.lo, span.hi);
    lemma_keys_within_finite(b, w, span.lo, span.hi);
    if count_in(a, w, span) == 0 && count_in(b, w, span) == 0 {
        assert forall|k: nat| span.contains(k) && one_sided(a, b, w, k) implies false by {
            if ka.contains(k) {
                vstd::set_lib::lemma_set_empty_equivalency_len(ka);
            }
            if kb.contains(k) {
                vstd::set_lib::lemma_set_empty_equivalency_len(kb);
            }
        }
    }
}

/// Comparing two regions that share no key, one after the other, leaves
/// what comparing both at once leaves.
pub proof fn lemma_absorbed_twice(
    mine: Map<nat, Entry>,
    theirs: Map<nat, Entry>,
    w: i64,
    now: i64,
    first: Set<nat>,
    second: Set<nat>,
)
    requires
        first.disjoint(second),
    ensures
        absorbed(
            absorbed(mine, theirs, w, now, first),
            absorbed(theirs, mine, w, now, first),
            w,
            now,
            second,
        ) == absorbed(mine, theirs, w, now, first.union(second)),
{
    let m1 = absorbed(mine, theirs, w, now, first);
    let t1 = absorbed(theirs, mine, w, now, first);
    let lhs = absorbed(m1, t1, w, now, second);
    let rhs = absorbed(mine, theirs, w, now, first.union(second));
    assert forall|k: nat| lhs.contains_key(k) <==> rhs.contains_key(k) by {
        if second.contains(k) {
            assert(!first.contains(k));
        }
    }
    assert forall|k: nat| lhs.contains_key(k) implies lhs[k] == rhs[k] by {
        if second.contains(k) {
            assert(!first.contains(k));
        }
    }
    assert(lhs =~= rhs);
}

/// Exactness of one pass. The keys that a pass sends either way are keys
/// about which the two sides differed; where bisection reached every such
/// key, they are all of them.
pub proof fn lemma_pass_exact(
    a: Map<nat, Entry>,
    b: Map<nat, Entry>,
    w: i64,
    threshold: nat,
    span: Span,
)
    ensures
        ({
            let region = exchanged(a, b, w, threshold, span);
            let sent = owed(a, b, w, region).union(owed(b, a, w, region));
            &&& forall|k: nat| sent.contains(k) ==> span.contains(k) && one_sided(a, b, w, k)
            &&& detects_all(a, b, w, threshold, span) ==> forall|k: nat|
                span.contains(k) && one_sided(a, b, w, k) ==> sent.contains(k)
        }),
{
    lemma_exchanged_within(a, b, w, threshold, span);
}

} // verus!
