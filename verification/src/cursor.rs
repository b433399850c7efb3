//! The state of one reconciliation between a peer and a domain: the
//! watermark in force and the ranges still to be compared.
//!
//! The ranges form a work list. The last one is compared next; when it is
//! cut, its halves take its place, the one to be compared first on top.

use crate::bisect::{exchanged, span_keys, spec_judge, Verdict};
use crate::key::{key_space, Key};
use crate::range::{KeyRange, Span};
use crate::store::Entry;
use vstd::prelude::*;

verus! {

/// Whether the ranges of a work list are proper ranges that share no key.
pub open spec fn frontier_wf(spans: Seq<Span>) -> bool {
    &&& forall|i: int| 0 <= i < spans.len() ==> (#[trigger] spans[i]).wf()
    &&& forall|i: int, j: int|
        0 <= i < j < spans.len() ==> (#[trigger] spans[i]).disjoint(#[trigger] spans[j])
}

/// Whether the marked ranges are proper ranges that share no key with one
/// another or with a range of the work list.
pub open spec fn marks_wf(marked: Seq<Span>, spans: Seq<Span>) -> bool {
    &&& frontier_wf(marked)
    &&& forall|i: int, j: int|
        0 <= i < marked.len() && 0 <= j < spans.len() ==> (#[trigger] marked[i]).disjoint(
            #[trigger] spans[j],
        )
}

/// Whether every key lies in some range of the work list.
pub open spec fn covers_all(spans: Seq<Span>) -> bool {
    forall|k: nat| k < key_space() ==> covered(spans).contains(k)
}

/// Whether each range of the list lies wholly below the next.
pub open spec fn ascending(spans: Seq<Span>) -> bool {
    forall|i: int, j: int|
        0 <= i < j < spans.len() ==> (#[trigger] spans[i]).hi < (#[trigger] spans[j]).lo
}

/// The intervals of a list of ranges.
pub open spec fn range_spans(ranges: Seq<KeyRange>) -> Seq<Span> {
    Seq::new(ranges.len(), |i: int| ranges[i]@)
}

/// The keys that lie in some range of the work list.
pub open spec fn covered(spans: Seq<Span>) -> Set<nat> {
    Set::new(|k: nat| exists|i: int| 0 <= i < spans.len() && (#[trigger] spans[i]).contains(k))
}

/// The keys that bisection of the ranges of the work list will compare key
/// by key.
pub open spec fn pending(
    spans: Seq<Span>,
    a: Map<nat, Entry>,
    b: Map<nat, Entry>,
    w: i64,
    threshold: nat,
) -> Set<nat> {
    Set::new(
        |k: nat|
            exists|i: int|
                0 <= i < spans.len() && exchanged(a, b, w, threshold, #[trigger] spans[i]).contains(
                    k,
                ),
    )
}

/// An upper bound on the comparisons that the work list can still ask for:
/// a range of `n` keys accounts for `2n - 1` of them.
pub open spec fn potential(spans: Seq<Span>) -> nat
    decreases spans.len(),
{
    if spans.len() == 0 {
        0
    } else {
        potential(spans.drop_last()) + (2 * spans.last().width() - 1) as nat
    }
}

/// The work list after its last range has been judged on the counts `mine`
/// and `theirs`.
pub open spec fn settled(spans: Seq<Span>, mine: nat, theirs: nat, threshold: nat) -> Seq<Span> {
    if spans.len() == 0 {
        spans
    } else {
        let range = spans.last();
        match spec_judge(range, mine, theirs, threshold) {
            Verdict::Split => spans.drop_last().push(range.second_half()).push(range.first_half()),
            _ => spans.drop_last(),
        }
    }
}

/// Adding a range to a work list adds its keys to those covered.
pub proof fn lemma_covered_push(spans: Seq<Span>, range: Span)
    ensures
        covered(spans.push(range)) == covered(spans).union(span_keys(range)),
{
    let more = spans.push(range);
    let want = covered(spans).union(span_keys(range));
    assert forall|k: nat| covered(more).contains(k) <==> want.contains(k) by {
        if covered(more).contains(k) {
            let i = choose|i: int| 0 <= i < more.len() && (#[trigger] more[i]).contains(k);
            if i < spans.len() {
                assert(spans[i].contains(k));
            }
        }
        if covered(spans).contains(k) {
            let i = choose|i: int| 0 <= i < spans.len() && (#[trigger] spans[i]).contains(k);
            assert(more[i].contains(k));
        }
        if range.contains(k) {
            assert(more[spans.len() as int].contains(k));
        }
    }
    assert(covered(more) =~= want);
}

/// Adding a range to a work list adds what bisection of it compares to
/// what is pending.
pub proof fn lemma_pending_push(
    spans: Seq<Span>,
    range: Span,
    a: Map<nat, Entry>,
    b: Map<nat, Entry>,
    w: i64,
    threshold: nat,
)
    ensures
        pending(spans.push(range), a, b, w, threshold) == pending(spans, a, b, w, threshold).union(
            exchanged(a, b, w, threshold, range),
        ),
{
    let more = spans.push(range);
    let want = pending(spans, a, b, w, threshold).union(exchanged(a, b, w, threshold, range));
    assert forall|k: nat| pending(more, a, b, w, threshold).contains(k) <==> want.contains(k) by {
        if pending(more, a, b, w, threshold).contains(k) {
            let i = choose|i: int|
                0 <= i < more.len() && exchanged(a, b, w, threshold, #[trigger] more[i]).contains(
                    k,
                );
            if i < spans.len() {
                assert(exchanged(a, b, w, threshold, spans[i]).contains(k));
            }
        }
        if pending(spans, a, b, w, threshold).contains(k) {
            let i = choose|i: int|
                0 <= i < spans.len() && exchanged(a, b, w, threshold, #[trigger] spans[i]).contains(
                    k,
                );
            assert(exchanged(a, b, w, threshold, more[i]).contains(k));
        }
        if exchanged(a, b, w, threshold, range).contains(k) {
            assert(exchanged(a, b, w, threshold, more[spans.len() as int]).contains(k));
        }
    }
    assert(pending(more, a, b, w, threshold) =~= want);
}

/// What is pending lies in what is covered.
pub proof fn lemma_pending_covered(
    spans: Seq<Span>,
    a: Map<nat, Entry>,
    b: Map<nat, Entry>,
    w: i64,
    threshold: nat,
)
    ensures
        pending(spans, a, b, w, threshold).subset_of(covered(spans)),
{
    assert forall|k: nat| pending(spans, a, b, w, threshold).contains(k) implies covered(
        spans,
    ).contains(k) by {
        let i = choose|i: int|
            0 <= i < spans.len() && exchanged(a, b, w, threshold, #[trigger] spans[i]).contains(k);
        crate::bisect::lemma_exchanged_within(a, b, w, threshold, spans[i]);
        assert(spans[i].contains(k));
    }
}

/// Judging the last range of a work list keeps the list in order, asks for
/// no key that was not covered before, leaves pending what was pending
/// apart from the range itself where that is to be compared key by key,
/// and uses up at least one of the comparisons that the list could ask for.
pub proof fn lemma_settled(
    spans: Seq<Span>,
    a: Map<nat, Entry>,
    b: Map<nat, Entry>,
    w: i64,
    threshold: nat,
)
    requires
        frontier_wf(spans),
        spans.len() > 0,
    ensures
        ({
            let range = spans.last();
            let mine = crate::bisect::count_in(a, w, range);
            let theirs = crate::bisect::count_in(b, w, range);
            let next = settled(spans, mine, theirs, threshold);
            let verdict = spec_judge(range, mine, theirs, threshold);
            &&& frontier_wf(next)
            &&& potential(next) + 1 <= potential(spans)
            &&& covered(next).subset_of(covered(spans))
            &&& verdict == Verdict::Exchange ==> covered(next).disjoint(span_keys(range))
            &&& pending(spans, a, b, w, threshold) == pending(next, a, b, w, threshold).union(
                if verdict == Verdict::Exchange {
                    span_keys(range)
                } else {
                    Set::empty()
                },
            )
        }),
{
    let range = spans.last();
    let base = spans.drop_last();
    let mine = crate::bisect::count_in(a, w, range);
    let theirs = crate::bisect::count_in(b, w, range);
    let next = settled(spans, mine, theirs, threshold);
    let verdict = spec_judge(range, mine, theirs, threshold);
    assert(spans =~= base.push(range));
    lemma_covered_push(base, range);
    lemma_pending_push(base, range, a, b, w, threshold);
    assert(frontier_wf(base)) by {
        assert forall|i: int| 0 <= i < base.len() implies (#[trigger] base[i]).wf() by {
            assert(spans[i].wf());
        }
        assert forall|i: int, j: int| 0 <= i < j < base.len() implies (#[trigger] base[i]).disjoint(
            #[trigger] base[j],
        ) by {
            assert(spans[i].disjoint(spans[j]));
        }
    }
    assert(covered(base).disjoint(span_keys(range))) by {
        assert forall|k: nat| covered(base).contains(k) implies !span_keys(range).contains(k) by {
            let i = choose|i: int| 0 <= i < base.len() && (#[trigger] base[i]).contains(k);
            assert(spans[i].disjoint(spans[spans.len() - 1]));
        }
    }
    assert(range.width() >= 1);
    let done = if verdict == Verdict::Exchange {
        span_keys(range)
    } else {
        Set::empty()
    };
    match verdict {
        Verdict::Split => {
            range.lemma_halves();
            let second = range.second_half();
            let first = range.first_half();
            let mid = base.push(second);
            assert(next == mid.push(first));
            lemma_covered_push(base, second);
            lemma_covered_push(mid, first);
            lemma_pending_push(base, second, a, b, w, threshold);
            lemma_pending_push(mid, first, a, b, w, threshold);
            assert(frontier_wf(next)) by {
                assert forall|i: int| 0 <= i < next.len() implies (#[trigger] next[i]).wf() by {
                    if i < base.len() {
                        assert(base[i].wf());
                    }
                }
                assert forall|i: int, j: int| 0 <= i < j < next.len() implies (
                #[trigger] next[i]).disjoint(#[trigger] next[j]) by {
                    if j < base.len() {
                        assert(base[i].disjoint(base[j]));
                    } else if i < base.len() {
                        assert(spans[i].disjoint(spans[spans.len() - 1]));
                    }
                }
            }
            assert(mid.drop_last() =~= base);
            assert(next.drop_last() =~= mid);
            assert(mid.last() == second);
            assert(next.last() == first);
            assert(potential(mid) == potential(base) + (2 * second.width() - 1));
            assert(potential(next) == potential(mid) + (2 * first.width() - 1));
            assert(exchanged(a, b, w, threshold, range) == exchanged(
                a,
                b,
                w,
                threshold,
                range.lower(),
            ).union(exchanged(a, b, w, threshold, range.upper())));
            assert(covered(next) =~= covered(spans)) by {
                assert(span_keys(range) =~= span_keys(second).union(span_keys(first)));
            }
            assert(pending(spans, a, b, w, threshold) =~= pending(next, a, b, w, threshold).union(
                done,
            ));
        },
        Verdict::Exchange => {
            assert(exchanged(a, b, w, threshold, range) == span_keys(range));
            assert(pending(spans, a, b, w, threshold) =~= pending(next, a, b, w, threshold).union(
                done,
            ));
        },
        Verdict::Converged => {
            assert(exchanged(a, b, w, threshold, range) == Set::<nat>::empty());
            assert(pending(spans, a, b, w, threshold) =~= pending(next, a, b, w, threshold).union(
                done,
            ));
        },
    }
}

/// The verdict on `range`, on which this side counted `mine` keys and the
/// other `theirs`.
pub fn judge(range: &KeyRange, mine: u64, theirs: u64, threshold: u64) -> (v: Verdict)
    ensures
        v == spec_judge(range@, mine as nat, theirs as nat, threshold as nat),
{
    if mine == 0 && theirs == 0 {
        Verdict::Converged
    } else if range.is_single() || (mine <= threshold && theirs <= threshold) {
        Verdict::Exchange
    } else if mine == theirs {
        Verdict::Converged
    } else {
        Verdict::Split
    }
}

/// The state of one reconciliation.
#[derive(Clone, Debug)]
pub struct Cursor {
    watermark: i64,
    frontier: Vec<KeyRange>,
    mutated: Vec<KeyRange>,
}

impl Cursor {
    /// The ranges still to be compared; the last is compared next.
    pub closed spec fn spans(&self) -> Seq<Span> {
        Seq::new(self.frontier@.len(), |i: int| self.frontier@[i]@)
    }

    /// The watermark that the reconciliation was started with.
    pub closed spec fn spec_watermark(&self) -> i64 {
        self.watermark
    }

    /// The ranges that were compared key by key and in which a record was
    /// sent: they are looked at again, each by itself, when the
    /// reconciliation starts afresh.
    pub closed spec fn marked(&self) -> Seq<Span> {
        Seq::new(self.mutated@.len(), |i: int| self.mutated@[i]@)
    }

    /// The ranges still to be compared and the marked ranges are proper
    /// ranges, and no two of them share a key.
    pub open spec fn wf(&self) -> bool {
        frontier_wf(self.spans()) && marks_wf(self.marked(), self.spans())
    }

    /// A reconciliation of the whole key space as of `watermark`.
    pub fn new(watermark: i64) -> (c: Cursor)
        ensures
            c.wf(),
            c.spec_watermark() == watermark,
            c.spans() == seq![KeyRange::spec_full()],
            c.marked() == Seq::<Span>::empty(),
    {
        let mut frontier: Vec<KeyRange> = Vec::new();
        frontier.push(KeyRange::full());
        let c = Cursor { watermark, frontier, mutated: Vec::new() };
        assert(c.spans() =~= seq![KeyRange::spec_full()]);
        assert(c.marked() =~= Seq::<Span>::empty());
        c
    }

    /// The watermark that the reconciliation was started with.
    pub fn watermark(&self) -> (w: i64)
        ensures
            w == self.spec_watermark(),
    {
        self.watermark
    }

    /// Whether no range is left to compare.
    pub fn is_converged(&self) -> (r: bool)
        ensures
            r == (self.spans().len() == 0),
    {
        self.frontier.len() == 0
    }

    /// Number of ranges still to be compared.
    pub fn pending_ranges(&self) -> (n: usize)
        ensures
            n == self.spans().len(),
    {
        self.frontier.len()
    }

    /// The range that is compared next, if any is left.
    pub fn peek(&self) -> (r: Option<KeyRange>)
        requires
            self.wf(),
        ensures
            r is None <==> self.spans().len() == 0,
            r matches Some(range) ==> range@ == self.spans().last() && range.wf(),
    {
        let n = self.frontier.len();
        if n == 0 {
            None
        } else {
            let range = self.frontier[n - 1];
            assert(self.spans()[n - 1] == range@);
            Some(range)
        }
    }

    /// The mark whose first key is the least that is not below `from`.
    fn next_mark(&self, from: &Key) -> (best: Option<usize>)
        ensures
            best matches Some(b) ==> b < self.marked().len() && from@ <= self.marked()[b as int].lo
                && forall|j: int|
                0 <= j < self.marked().len() && from@ <= (#[trigger] self.marked()[j]).lo
                    ==> self.marked()[b as int].lo <= self.marked()[j].lo,
            best is None ==> forall|j: int|
                0 <= j < self.marked().len() ==> (#[trigger] self.marked()[j]).lo < from@,
    {
        let n = self.mutated.len();
        let ghost marks = self.marked();
        let mut best: Option<usize> = None;
        let mut j: usize = 0;
        while j < n
            invariant
                j <= n,
                n == self.mutated@.len(),
                marks == self.marked(),
                best matches Some(b) ==> b < n && from@ <= marks[b as int].lo && forall|i: int|
                    0 <= i < j && from@ <= (#[trigger] marks[i]).lo ==> marks[b as int].lo
                        <= marks[i].lo,
                best is None ==> forall|i: int| 0 <= i < j ==> (#[trigger] marks[i]).lo < from@,
            decreases n - j,
        {
            let range = self.mutated[j];
            assert(marks[j as int] == range@);
            if from.le(&range.start()) {
                let better = match best {
                    None => true,
                    Some(b) => {
                        assert(marks[b as int] == self.mutated@[b as int]@);
                        range.start().lt(&self.mutated[b].start())
                    },
                };
                if better {
                    best = Some(j);
                }
            }
            j += 1;
        }
        best
    }

    /// A reconciliation of the whole key space as of `watermark` that looks
    /// again at what this one repaired: its work list has every marked
    /// range of this one as a range of its own, and between them the
    /// ranges that fill the key space, all in rising order.
    pub fn restart(&self, watermark: i64) -> (c: Cursor)
        requires
            self.wf(),
        ensures
            c.wf(),
            c.spec_watermark() == watermark,
            c.marked() == Seq::<Span>::empty(),
            ascending(c.spans()),
            covers_all(c.spans()),
            forall|j: int|
                0 <= j < self.marked().len() ==> c.spans().contains(#[trigger] self.marked()[j]),
            forall|i: int|
                0 <= i < c.spans().len() - 1 ==> self.marked().contains(#[trigger] c.spans()[i])
                    || self.marked().contains(c.spans()[i + 1]),
    {
        let ghost marks = self.marked();
        let mut out: Vec<KeyRange> = Vec::new();
        let mut cur = Key::min();
        let mut open = true;
        let ghost mut left: nat = key_space() + 1;
        proof {
            cur.lemma_shape();
        }
        while open
            invariant
                marks == self.marked(),
                frontier_wf(marks),
                cur@ < key_space(),
                open ==> left == key_space() - cur@ + 1,
                !open ==> left == 0,
                frontier_wf(range_spans(out@)),
                ascending(range_spans(out@)),
                open ==> forall|i: int|
                    0 <= i < out@.len() ==> (#[trigger] range_spans(out@)[i]).hi < cur@,
                forall|k: nat|
                    k < key_space() && (!open || k < cur@) ==> covered(range_spans(out@)).contains(
                        k,
                    ),
                forall|j: int|
                    0 <= j < marks.len() && (!open || (#[trigger] marks[j]).lo < cur@)
                        ==> range_spans(out@).contains(marks[j]),
                forall|i: int|
                    0 <= i < out@.len() - 1 ==> marks.contains(#[trigger] range_spans(out@)[i])
                        || marks.contains(range_spans(out@)[i + 1]),
                open && out@.len() > 0 ==> marks.contains(range_spans(out@).last()),
            decreases left,
        {
            let ghost before = range_spans(out@);
            let ghost from = cur@;
            match self.next_mark(&cur) {
                None => {
                    match KeyRange::new(cur, Key::max()) {
                        Some(rest) => {
                            out.push(rest);
                            proof {
                                let after = range_spans(out@);
                                assert(after =~= before.push(rest@));
                                lemma_covered_push(before, rest@);
                                assert forall|j: int| 0 <= j < marks.len() implies after.contains(
                                    #[trigger] marks[j],
                                ) by {
                                    assert(marks[j].lo < from);
                                    let i = choose|i: int|
                                        0 <= i < before.len() && before[i] == marks[j];
                                    assert(after[i] == marks[j]);
                                }
                                assert forall|i: int| 0 <= i < after.len() - 1 implies marks.contains(
                                    #[trigger] after[i],
                                ) || marks.contains(after[i + 1]) by {
                                    if i + 1 < before.len() {
                                        assert(after[i] == before[i]);
                                        assert(after[i + 1] == before[i + 1]);
                                    } else {
                                        assert(after[i] == before.last());
                                    }
                                }
                                lemma_ascending_wf(before, rest@);
                            }
                        },
                        None => {},
                    }
                    open = false;
                    proof {
                        left = 0;
                    }
                },
                Some(b) => {
                    let range = self.mutated[b];
                    assert(marks[b as int] == range@);
                    assert(range@.wf());
                    let ghost mut mid = before;
                    if cur.lt(&range.start()) {
                        match range.start().predecessor() {
                            Some(end) => match KeyRange::new(cur, end) {
                                Some(gap) => {
                                    out.push(gap);
                                    proof {
                                        mid = before.push(gap@);
                                        assert(range_spans(out@) =~= mid);
                                        lemma_covered_push(before, gap@);
                                        lemma_ascending_wf(before, gap@);
                                    }
                                },
                                None => {},
                            },
                            None => {},
                        }
                    }
                    out.push(range);
                    let next = range.end().successor();
                    proof {
                        let after = range_spans(out@);
                        assert(after =~= mid.push(range@));
                        lemma_covered_push(mid, range@);
                        assert forall|i: int| 0 <= i < mid.len() implies (#[trigger] mid[i]).hi
                            < range@.lo by {
                            if i < before.len() {
                                assert(mid[i] == before[i]);
                            }
                        }
                        lemma_ascending_wf(mid, range@);
                        assert forall|j: int|
                            0 <= j < marks.len() && (next is None || (#[trigger] marks[j]).lo
                                <= range@.hi) implies after.contains(marks[j]) by {
                            if marks[j].lo < from {
                                let i = choose|i: int|
                                    0 <= i < before.len() && before[i] == marks[j];
                                assert(mid[i] == marks[j]);
                                assert(after[i] == marks[j]);
                            } else {
                                assert(marks[b as int].lo <= marks[j].lo);
                                assert(marks[j].wf());
                                if j != b {
                                    if j < b {
                                        assert(marks[j].disjoint(marks[b as int]));
                                    } else {
                                        assert(marks[b as int].disjoint(marks[j]));
                                    }
                                }
                                assert(after[mid.len() as int] == marks[j]);
                            }
                        }
                        assert forall|i: int| 0 <= i < after.len() - 1 implies marks.contains(
                            #[trigger] after[i],
                        ) || marks.contains(after[i + 1]) by {
                            if i + 1 < before.len() {
                                assert(after[i] == before[i]);
                                assert(after[i + 1] == before[i + 1]);
                            } else if i + 1 == before.len() {
                                assert(after[i] == before.last());
                            } else {
                                assert(after[i + 1] == range@);
                            }
                        }
                        assert(after.last() == range@);
                    }
                    match next {
                        Some(k) => {
                            cur = k;
                            proof {
                                left = (key_space() - cur@ + 1) as nat;
                            }
                        },
                        None => {
                            open = false;
                            proof {
                                left = 0;
                            }
                        },
                    }
                },
            }
        }
        let c = Cursor { watermark, frontier: out, mutated: Vec::new() };
        proof {
            assert(c.spans() =~= range_spans(out@));
            assert(c.marked() =~= Seq::<Span>::empty());
        }
        c
    }

    /// Number of marked ranges.
    pub fn marked_ranges(&self) -> (n: usize)
        ensures
            n == self.marked().len(),
    {
        self.mutated.len()
    }

    /// The marked range at place `i`.
    pub fn marked_range(&self, i: usize) -> (r: Option<KeyRange>)
        ensures
            r is Some <==> i < self.marked().len(),
            r matches Some(range) ==> range@ == self.marked()[i as int],
    {
        if i < self.mutated.len() {
            let range = self.mutated[i];
            assert(self.marked()[i as int] == range@);
            Some(range)
        } else {
            None
        }
    }

    /// Marks `range`, which has left the work list, as one in which a
    /// record was sent.
    pub(crate) fn mark(&mut self, range: KeyRange)
        requires
            old(self).wf(),
            range.wf(),
            forall|j: int|
                0 <= j < old(self).spans().len() ==> (#[trigger] old(self).spans()[j]).disjoint(
                    range@,
                ),
            forall|i: int|
                0 <= i < old(self).marked().len() ==> (#[trigger] old(self).marked()[i]).disjoint(
                    range@,
                ),
        ensures
            final(self).wf(),
            final(self).spec_watermark() == old(self).spec_watermark(),
            final(self).spans() == old(self).spans(),
            final(self).marked() == old(self).marked().push(range@),
    {
        let ghost before = self.marked();
        let ghost spans = self.spans();
        self.mutated.push(range);
        proof {
            let after = self.marked();
            assert(after =~= before.push(range@));
            assert(self.spans() =~= spans);
            assert forall|i: int| 0 <= i < after.len() implies (#[trigger] after[i]).wf() by {
                if i < before.len() {
                    assert(before[i].wf());
                }
            }
            assert forall|i: int, j: int| 0 <= i < j < after.len() implies (
            #[trigger] after[i]).disjoint(#[trigger] after[j]) by {
                if j < before.len() {
                    assert(before[i].disjoint(before[j]));
                } else {
                    assert(before[i].disjoint(range@));
                }
            }
            assert forall|i: int, j: int| 0 <= i < after.len() && 0 <= j < spans.len() implies (
            #[trigger] after[i]).disjoint(#[trigger] spans[j]) by {
                if i < before.len() {
                    assert(before[i].disjoint(spans[j]));
                } else {
                    assert(spans[j].disjoint(range@));
                }
            }
        }
    }

    /// Judges the range that is compared next on the counts of the two
    /// sides, and takes it off the work list; where it is to be cut, its
    /// halves take its place. Returns the verdict, or nothing where no
    /// range was left.
    pub fn settle(&mut self, mine: u64, theirs: u64, threshold: u64) -> (r: Option<Verdict>)
        requires
            old(self).wf(),
        ensures
            final(self).wf(),
            final(self).spec_watermark() == old(self).spec_watermark(),
            final(self).marked() == old(self).marked(),
            final(self).spans() == settled(
                old(self).spans(),
                mine as nat,
                theirs as nat,
                threshold as nat,
            ),
            r is None <==> old(self).spans().len() == 0,
            r matches Some(v) ==> v == spec_judge(
                old(self).spans().last(),
                mine as nat,
                theirs as nat,
                threshold as nat,
            ),
    {
        let ghost before = self.spans();
        match self.frontier.pop() {
            None => {
                assert(self.spans() =~= before);
                None
            },
            Some(range) => {
                assert(before[before.len() - 1] == range@);
                assert(range.wf());
                assert(self.spans() =~= before.drop_last());
                let v = judge(&range, mine, theirs, threshold);
                proof {
                    lemma_settled_wf(
                        self.marked(),
                        before,
                        mine as nat,
                        theirs as nat,
                        threshold as nat,
                    );
                }
                if v == Verdict::Split {
                    match range.split() {
                        Some((first, second)) => {
                            self.frontier.push(second);
                            self.frontier.push(first);
                            assert(self.spans() =~= before.drop_last().push(second@).push(first@));
                        },
                        None => {},
                    }
                }
                Some(v)
            },
        }
    }
}

/// A proper range that lies above all ranges of a list in rising order
/// extends the list.
proof fn lemma_ascending_wf(spans: Seq<Span>, range: Span)
    requires
        frontier_wf(spans),
        ascending(spans),
        range.wf(),
        forall|i: int| 0 <= i < spans.len() ==> (#[trigger] spans[i]).hi < range.lo,
    ensures
        frontier_wf(spans.push(range)),
        ascending(spans.push(range)),
{
    let after = spans.push(range);
    assert forall|i: int| 0 <= i < after.len() implies (#[trigger] after[i]).wf() by {
        if i < spans.len() {
            assert(spans[i].wf());
        }
    }
    assert forall|i: int, j: int| 0 <= i < j < after.len() implies (#[trigger] after[i]).hi < (
    #[trigger] after[j]).lo by {
        if j < spans.len() {
            assert(spans[i].hi < spans[j].lo);
        } else {
            assert(spans[i].hi < range.lo);
        }
    }
}

/// Judging the last range keeps a work list and the marked ranges in
/// order, whatever the counts.
proof fn lemma_settled_wf(
    marked: Seq<Span>,
    spans: Seq<Span>,
    mine: nat,
    theirs: nat,
    threshold: nat,
)
    requires
        frontier_wf(spans),
        marks_wf(marked, spans),
        spans.len() > 0,
    ensures
        frontier_wf(settled(spans, mine, theirs, threshold)),
        marks_wf(marked, settled(spans, mine, theirs, threshold)),
{
    lemma_settled_frontier(spans, mine, theirs, threshold);
    let range = spans.last();
    let next = settled(spans, mine, theirs, threshold);
    if spec_judge(range, mine, theirs, threshold) == Verdict::Split {
        range.lemma_halves();
    }
    assert forall|i: int, j: int| 0 <= i < marked.len() && 0 <= j < next.len() implies (
    #[trigger] marked[i]).disjoint(#[trigger] next[j]) by {
        assert(marked[i].disjoint(spans[spans.len() - 1]));
        if j < spans.len() - 1 {
            assert(marked[i].disjoint(spans[j]));
        }
    }
}

/// Judging the last range keeps a work list in order, whatever the counts.
proof fn lemma_settled_frontier(spans: Seq<Span>, mine: nat, theirs: nat, threshold: nat)
    requires
        frontier_wf(spans),
        spans.len() > 0,
    ensures
        frontier_wf(settled(spans, mine, theirs, threshold)),
{
    let range = spans.last();
    let base = spans.drop_last();
    let next = settled(spans, mine, theirs, threshold);
    assert forall|i: int| 0 <= i < base.len() implies (#[trigger] base[i]).wf() by {
        assert(spans[i].wf());
    }
    assert forall|i: int, j: int| 0 <= i < j < base.len() implies (#[trigger] base[i]).disjoint(
        #[trigger] base[j],
    ) by {
        assert(spans[i].disjoint(spans[j]));
    }
    if spec_judge(range, mine, theirs, threshold) == Verdict::Split {
        range.lemma_halves();
        assert forall|i: int| 0 <= i < next.len() implies (#[trigger] next[i]).wf() by {
            if i < base.len() {
                assert(base[i].wf());
            }
        }
        assert forall|i: int, j: int| 0 <= i < j < next.len() implies (#[trigger] next[i]).disjoint(
            #[trigger] next[j],
        ) by {
            if j < base.len() {
                assert(base[i].disjoint(base[j]));
            } else if i < base.len() {
                assert(spans[i].disjoint(spans[spans.len() - 1]));
            }
        }
    }
}

} // verus!
