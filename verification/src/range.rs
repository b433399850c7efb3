//! Inclusive ranges of keys and their bisection.

use crate::key::{key_space, lemma_pow256_positive, pow256, Key, KEY_SIZE};
use vstd::prelude::*;

verus! {

/// An inclusive interval `[lo, hi]` of key numbers.
pub struct Span {
    pub lo: nat,
    pub hi: nat,
}

impl Span {
    /// The interval is not empty and lies within the key space.
    pub open spec fn wf(self) -> bool {
        self.lo <= self.hi < key_space()
    }

    /// Number of keys in the interval.
    pub open spec fn width(self) -> nat {
        (self.hi - self.lo + 1) as nat
    }

    pub open spec fn contains(self, k: nat) -> bool {
        self.lo <= k <= self.hi
    }

    /// The interval holds exactly one key.
    pub open spec fn is_single(self) -> bool {
        self.lo == self.hi
    }

    /// The key at which the interval is cut: halfway, rounded down.
    pub open spec fn mid(self) -> nat {
        (self.lo + self.hi) / 2
    }

    /// The half up to and including the midpoint.
    pub open spec fn lower(self) -> Span {
        Span { lo: self.lo, hi: self.mid() }
    }

    /// The half above the midpoint.
    pub open spec fn upper(self) -> Span {
        Span { lo: self.mid() + 1, hi: self.hi }
    }

    /// The half that is compared first: the narrower one, and of two equally
    /// wide halves the lower.
    pub open spec fn first_half(self) -> Span {
        if self.width() % 2 == 1 {
            self.upper()
        } else {
            self.lower()
        }
    }

    /// The half that is compared second.
    pub open spec fn second_half(self) -> Span {
        if self.width() % 2 == 1 {
            self.lower()
        } else {
            self.upper()
        }
    }

    pub open spec fn disjoint(self, other: Span) -> bool {
        self.hi < other.lo || other.hi < self.lo
    }

    /// The two halves of an interval of more than one key are intervals
    /// themselves, share no key, cover the interval between them, and the
    /// first is no wider than the second, which holds at most one key more
    /// than half of the whole.
    pub proof fn lemma_halves(self)
        requires
            self.wf(),
            !self.is_single(),
        ensures
            self.lower().wf(),
            self.upper().wf(),
            self.lower().disjoint(self.upper()),
            forall|k: nat| self.contains(k) <==> self.lower().contains(k) || self.upper().contains(k),
            self.lower().width() + self.upper().width() == self.width(),
            self.first_half().width() <= self.second_half().width(),
            self.second_half().width() <= (self.width() + 1) / 2,
            self.first_half().wf(),
            self.second_half().wf(),
    {
    }
}

/// `2^n`.
pub open spec fn pow2(n: nat) -> nat
    decreases n,
{
    if n == 0 {
        1
    } else {
        2 * pow2((n - 1) as nat)
    }
}

proof fn lemma_pow256_is_pow2(n: nat)
    ensures
        pow256(n) == pow2(8 * n),
    decreases n,
{
    if n > 0 {
        lemma_pow256_is_pow2((n - 1) as nat);
        let m = (8 * (n - 1)) as nat;
        assert(pow2(m + 8) == 256 * pow2(m)) by {
            reveal_with_fuel(pow2, 9);
        }
    }
}

/// The key space holds `2^512` keys.
pub proof fn lemma_key_space_is_pow2()
    ensures
        key_space() == pow2(512),
{
    lemma_pow256_is_pow2(64);
}

/// Whether each interval of `chain` but the first is one of the two halves
/// of the interval before it.
pub open spec fn is_bisection_chain(chain: Seq<Span>) -> bool {
    forall|i: int|
        0 <= i < chain.len() - 1 ==> !(#[trigger] chain[i]).is_single() && (chain[i + 1]
            == chain[i].lower() || chain[i + 1] == chain[i].upper())
}

proof fn lemma_chain_width(chain: Seq<Span>, i: int)
    requires
        chain.len() > 0,
        chain[0].wf(),
        is_bisection_chain(chain),
        0 <= i < chain.len(),
    ensures
        chain[i].wf(),
        i <= 512,
        chain[i].width() <= pow2((512 - i) as nat),
    decreases i,
{
    if i == 0 {
        lemma_pow256_is_pow2(64);
    } else {
        lemma_chain_width(chain, i - 1);
        let prev = chain[i - 1];
        prev.lemma_halves();
        assert(!prev.is_single());
        assert(prev.width() >= 2);
        if i - 1 == 512 {
            assert(pow2(0) == 1);
            assert(false);
        }
        assert(pow2((512 - (i - 1)) as nat) == 2 * pow2((512 - i) as nat));
    }
}

/// Bisection ends: a chain of intervals that starts anywhere in the key
/// space, each next one a half of the one before, has at most one interval
/// for every bit of a key and one more, and an interval reached after `i`
/// cuts holds at most `2^(512 - i)` keys.
pub proof fn lemma_bisection_depth(chain: Seq<Span>)
    requires
        chain.len() > 0,
        chain[0].wf(),
        is_bisection_chain(chain),
    ensures
        chain.len() <= 8 * KEY_SIZE + 1,
        forall|i: int|
            0 <= i < chain.len() ==> (#[trigger] chain[i]).width() <= pow2((512 - i) as nat),
{
    lemma_chain_width(chain, chain.len() - 1);
    assert forall|i: int| 0 <= i < chain.len() implies (#[trigger] chain[i]).width() <= pow2(
        (512 - i) as nat,
    ) by {
        lemma_chain_width(chain, i);
    }
}

/// An inclusive range of keys, from `start` to `end`.
#[derive(Clone, Copy, Debug)]
pub struct KeyRange {
    start: Key,
    end: Key,
}

impl View for KeyRange {
    type V = Span;

    closed spec fn view(&self) -> Span {
        Span { lo: self.start@, hi: self.end@ }
    }
}

impl KeyRange {
    /// The range's first key does not come after its last.
    pub open spec fn wf(&self) -> bool {
        self@.wf()
    }

    /// The range from `start` to `end`, unless `start` comes after `end`.
    pub fn new(start: Key, end: Key) -> (r: Option<KeyRange>)
        ensures
            r is Some <==> start@ <= end@,
            r matches Some(range) ==> range.wf() && range@ == (Span { lo: start@, hi: end@ }),
    {
        if start.le(&end) {
            proof {
                end.lemma_shape();
            }
            Some(KeyRange { start, end })
        } else {
            None
        }
    }

    /// The interval of all keys.
    pub open spec fn spec_full() -> Span {
        Span { lo: 0, hi: (key_space() - 1) as nat }
    }

    /// The range of all keys.
    pub fn full() -> (r: KeyRange)
        ensures
            r.wf(),
            r@ == Self::spec_full(),
    {
        proof {
            lemma_pow256_positive(64);
        }
        KeyRange { start: Key::min(), end: Key::max() }
    }

    /// The first key of the range.
    pub fn start(&self) -> (k: Key)
        ensures
            k@ == self@.lo,
    {
        self.start
    }

    /// The last key of the range.
    pub fn end(&self) -> (k: Key)
        ensures
            k@ == self@.hi,
    {
        self.end
    }

    /// Whether the range holds one key only.
    pub fn is_single(&self) -> (r: bool)
        ensures
            r == self@.is_single(),
    {
        self.start.same(&self.end)
    }

    /// Whether `key` lies in the range.
    pub fn contains(&self, key: &Key) -> (r: bool)
        ensures
            r == self@.contains(key@),
    {
        self.start.le(key) && key.le(&self.end)
    }

    /// Cuts the range at its midpoint. The halves come in the order in which
    /// they are to be compared. A range of one key cannot be cut.
    pub fn split(&self) -> (r: Option<(KeyRange, KeyRange)>)
        requires
            self.wf(),
        ensures
            r is None <==> self@.is_single(),
            r matches Some((first, second)) ==> {
                &&& first@ == self@.first_half()
                &&& second@ == self@.second_half()
                &&& first.wf()
                &&& second.wf()
            },
    {
        if self.is_single() {
            return None;
        }
        let mid = self.start.midpoint(&self.end);
        proof {
            self@.lemma_halves();
            self.end.lemma_shape();
        }
        match mid.successor() {
            None => None,
            Some(above) => {
                let lower = KeyRange { start: self.start, end: mid };
                let upper = KeyRange { start: above, end: self.end };
                if self.start.is_odd() == self.end.is_odd() {
                    Some((upper, lower))
                } else {
                    Some((lower, upper))
                }
            },
        }
    }
}

} // verus!
