//! An in-memory key/value store with range queries as of a watermark.
//!
//! The store keeps at most one record for a key. A record carries the
//! logical time at which its value was written, and a query made with a
//! watermark sees the records written at or before it.

use crate::key::{key_space, Key};
use vstd::prelude::*;
use vstd::slice::slice_to_vec;

verus! {

/// What the store holds for one key: the value and the time it was written.
pub struct Entry {
    pub value: Seq<u8>,
    pub stamp: i64,
}

/// Whether `m` holds a record for `k` that was written at or before `w`.
pub open spec fn seen(m: Map<nat, Entry>, w: i64, k: nat) -> bool {
    m.contains_key(k) && m[k].stamp <= w
}

/// The keys from `lo` to `hi` for which `m` holds a record written at or
/// before `w`.
pub open spec fn keys_within(m: Map<nat, Entry>, w: i64, lo: nat, hi: nat) -> Set<nat> {
    Set::new(|k: nat| seen(m, w, k) && lo <= k <= hi)
}

/// The numbers of a list of keys, in the order of the list.
pub open spec fn key_numbers(keys: Seq<Key>) -> Seq<nat> {
    Seq::new(keys.len(), |i: int| keys[i]@)
}

/// Whether each number of the list is smaller than the next.
pub open spec fn rising(keys: Seq<nat>) -> bool {
    forall|a: int, b: int| 0 <= a < b < keys.len() ==> keys[a] < keys[b]
}

/// What a point lookup returns.
#[derive(Clone, Debug, PartialEq, Eq)]
pub enum LoadResult {
    Found(Vec<u8>),
    NotFound,
}

/// What storing a record returns.
#[derive(Clone, Copy, Debug, PartialEq, Eq, Structural)]
pub enum StoreResult {
    /// The value is new for its key, or differs from the one held before.
    Stored,
    /// Exactly this value was already held for the key.
    Duplicate,
    /// The value is larger than the store admits.
    Rejected,
}

/// A key with its value, as a range scan hands it out.
#[derive(Clone, Debug)]
pub struct Record {
    pub key: Key,
    pub value: Vec<u8>,
}

struct Slot {
    key: Key,
    value: Vec<u8>,
    stamp: i64,
}

spec fn entry_of(slot: Slot) -> Entry {
    Entry { value: slot.value@, stamp: slot.stamp }
}

spec fn sorted(slots: Seq<Slot>) -> bool {
    forall|i: int, j: int| 0 <= i < j < slots.len() ==> slots[i].key@ < slots[j].key@
}

spec fn has_key(slots: Seq<Slot>, k: nat) -> bool {
    exists|i: int| 0 <= i < slots.len() && (#[trigger] slots[i]).key@ == k
}

spec fn index_of(slots: Seq<Slot>, k: nat) -> int {
    choose|i: int| 0 <= i < slots.len() && (#[trigger] slots[i]).key@ == k
}

spec fn model(slots: Seq<Slot>) -> Map<nat, Entry> {
    Map::new(|k: nat| has_key(slots, k), |k: nat| entry_of(slots[index_of(slots, k)]))
}

proof fn lemma_model_at(slots: Seq<Slot>, i: int)
    requires
        sorted(slots),
        0 <= i < slots.len(),
    ensures
        model(slots).contains_key(slots[i].key@),
        model(slots)[slots[i].key@] == entry_of(slots[i]),
{
    let k = slots[i].key@;
    assert(has_key(slots, k));
    let j = index_of(slots, k);
    assert(0 <= j < slots.len() && slots[j].key@ == k);
    if j < i {
        assert(slots[j].key@ < slots[i].key@);
    }
    if i < j {
        assert(slots[i].key@ < slots[j].key@);
    }
}

proof fn lemma_model_has(slots: Seq<Slot>, k: nat) -> (i: int)
    requires
        sorted(slots),
        model(slots).contains_key(k),
    ensures
        0 <= i < slots.len(),
        slots[i].key@ == k,
        model(slots)[k] == entry_of(slots[i]),
{
    let i = index_of(slots, k);
    lemma_model_at(slots, i);
    i
}

/// Whether slot `i` is one that a scan from `lo` to `hi` as of `w` hands out.
spec fn selected(slots: Seq<Slot>, w: i64, lo: nat, hi: nat, i: int) -> bool {
    0 <= i < slots.len() && slots[i].stamp <= w && lo <= slots[i].key@ <= hi
}

/// `sel` lists, in rising order, exactly the slots that a scan from `lo` to
/// `hi` as of `w` hands out.
spec fn is_selection(slots: Seq<Slot>, w: i64, lo: nat, hi: nat, sel: Seq<usize>) -> bool {
    &&& forall|a: int, b: int| 0 <= a < b < sel.len() ==> sel[a] < sel[b]
    &&& forall|a: int| 0 <= a < sel.len() ==> selected(slots, w, lo, hi, #[trigger] sel[a] as int)
    &&& forall|i: int|
        selected(slots, w, lo, hi, i) ==> exists|a: int| 0 <= a < sel.len() && #[trigger] sel[a] == i
}

proof fn lemma_selection_counts(slots: Seq<Slot>, w: i64, lo: nat, hi: nat, sel: Seq<usize>)
    requires
        sorted(slots),
        is_selection(slots, w, lo, hi, sel),
    ensures
        keys_within(model(slots), w, lo, hi).finite(),
        keys_within(model(slots), w, lo, hi).len() == sel.len(),
{
    let ks = Seq::new(sel.len(), |a: int| slots[sel[a] as int].key@);
    assert forall|a: int, b: int| 0 <= a < ks.len() && 0 <= b < ks.len() && a != b implies ks[a]
        != ks[b] by {
        if a < b {
            assert(sel[a] < sel[b]);
        } else {
            assert(sel[b] < sel[a]);
        }
    }
    assert(ks.no_duplicates());
    ks.unique_seq_to_set();
    vstd::seq_lib::seq_to_set_is_finite(ks);
    let target = keys_within(model(slots), w, lo, hi);
    assert forall|k: nat| ks.to_set().contains(k) <==> target.contains(k) by {
        if ks.to_set().contains(k) {
            let a = choose|a: int| 0 <= a < ks.len() && ks[a] == k;
            assert(selected(slots, w, lo, hi, sel[a] as int));
            lemma_model_at(slots, sel[a] as int);
        }
        if target.contains(k) {
            let i = lemma_model_has(slots, k);
            assert(selected(slots, w, lo, hi, i));
            let a = choose|a: int| 0 <= a < sel.len() && #[trigger] sel[a] == i;
            assert(ks[a] == k);
        }
    }
    assert(ks.to_set() =~= target);
}

fn bytes_equal(a: &[u8], b: &[u8]) -> (r: bool)
    ensures
        r == (a@ == b@),
{
    if a.len() != b.len() {
        return false;
    }
    let mut i: usize = 0;
    while i < a.len()
        invariant
            i <= a@.len(),
            a@.len() == b@.len(),
            forall|j: int| 0 <= j < i ==> a@[j] == b@[j],
        decreases a@.len() - i,
    {
        if a[i] != b[i] {
            return false;
        }
        i += 1;
    }
    assert(a@ =~= b@);
    true
}

/// An in-memory store for one domain.
pub struct MemoryStore {
    domain: String,
    max_value_size: usize,
    slots: Vec<Slot>,
}

impl View for MemoryStore {
    type V = Map<nat, Entry>;

    /// The records of the store, by the number of their key.
    closed spec fn view(&self) -> Map<nat, Entry> {
        model(self.slots@)
    }
}

impl MemoryStore {
    /// The store's internal order holds and no value is larger than the
    /// store admits.
    pub closed spec fn wf(&self) -> bool {
        &&& sorted(self.slots@)
        &&& forall|i: int|
            0 <= i < self.slots@.len() ==> (#[trigger] self.slots@[i]).value@.len()
                <= self.max_value_size
    }

    /// Name of the data set that the store holds.
    pub closed spec fn spec_domain(&self) -> Seq<char> {
        self.domain@
    }

    /// Largest value, in bytes, that the store admits.
    pub closed spec fn spec_max_value_size(&self) -> nat {
        self.max_value_size as nat
    }

    /// The keys from `lo` to `hi` that a query as of `w` sees.
    pub open spec fn keys_in(&self, w: i64, lo: nat, hi: nat) -> Set<nat> {
        keys_within(self@, w, lo, hi)
    }

    /// A store holds finitely many records, each under a key of the key
    /// space and none larger than the store admits, and so every range of
    /// it holds finitely many keys.
    pub proof fn lemma_contents(&self)
        requires
            self.wf(),
        ensures
            self@.dom().finite(),
            self@.dom().len() <= usize::MAX,
            forall|k: nat| self@.contains_key(k) ==> k < key_space(),
            forall|k: nat|
                self@.contains_key(k) ==> (#[trigger] self@[k]).value.len()
                    <= self.spec_max_value_size(),
            forall|w: i64, lo: nat, hi: nat| (#[trigger] self.keys_in(w, lo, hi)).finite(),
    {
        let slots = self.slots@;
        let ks = Seq::new(slots.len(), |i: int| slots[i].key@);
        vstd::seq_lib::seq_to_set_is_finite(ks);
        assert forall|k: nat| ks.to_set().contains(k) <==> self@.dom().contains(k) by {
            if ks.to_set().contains(k) {
                let i = choose|i: int| 0 <= i < ks.len() && ks[i] == k;
                lemma_model_at(slots, i);
            }
            if self@.dom().contains(k) {
                let i = lemma_model_has(slots, k);
                assert(ks[i] == k);
            }
        }
        assert(ks.to_set() =~= self@.dom());
        assert(ks.no_duplicates());
        ks.unique_seq_to_set();
        assert(self.slots.len() == slots.len());
        assert forall|k: nat| self@.contains_key(k) implies k < key_space() by {
            let i = lemma_model_has(slots, k);
            slots[i].key.lemma_shape();
        }
        assert forall|k: nat| self@.contains_key(k) implies (#[trigger] self@[k]).value.len()
            <= self.spec_max_value_size() by {
            let i = lemma_model_has(slots, k);
        }
        assert forall|w: i64, lo: nat, hi: nat| (#[trigger] self.keys_in(w, lo, hi)).finite() by {
            let sub = self.keys_in(w, lo, hi);
            assert(sub.subset_of(self@.dom()));
            vstd::set_lib::lemma_len_subset(sub, self@.dom());
        }
    }

    /// Storing is idempotent. Once a value that the store admits has been
    /// stored under a key, storing it there again is reported as a
    /// duplicate and changes nothing, and neither time is what the store
    /// holds for another key touched.
    pub proof fn lemma_store_twice(
        before: &MemoryStore,
        after: &MemoryStore,
        now: i64,
        later: i64,
        key: nat,
        value: Seq<u8>,
    )
        requires
            value.len() <= before.spec_max_value_size(),
            after.spec_max_value_size() == before.spec_max_value_size(),
            after@ == before.spec_store(now, key, value),
        ensures
            after.spec_store_result(key, value) == StoreResult::Duplicate,
            after.spec_store(later, key, value) == after@,
            forall|k: nat|
                k != key ==> (after@.contains_key(k) <==> before@.contains_key(k)) && (
                after@.contains_key(k) ==> after@[k] == before@[k]),
    {
    }

    /// Counting agrees with scanning. A list that holds, in rising order,
    /// exactly the keys of a range that a query sees has as many keys as
    /// the range is counted to have.
    pub proof fn lemma_scan_counts(&self, w: i64, lo: nat, hi: nat, keys: Seq<nat>)
        requires
            self.lists_keys(w, lo, hi, keys),
        ensures
            keys.len() == self.keys_in(w, lo, hi).len(),
    {
        assert forall|a: int, b: int| 0 <= a < keys.len() && 0 <= b < keys.len() && a != b implies keys[a]
            != keys[b] by {
            if a < b {
                assert(keys[a] < keys[b]);
            } else {
                assert(keys[b] < keys[a]);
            }
        }
        keys.unique_seq_to_set();
    }

    /// An empty store for the data set `domain`, admitting values of up to
    /// `max_value_size` bytes.
    pub fn new(domain: String, max_value_size: usize) -> (s: MemoryStore)
        ensures
            s.wf(),
            s@ == Map::<nat, Entry>::empty(),
            s.spec_domain() == domain@,
            s.spec_max_value_size() == max_value_size,
    {
        let s = MemoryStore { domain, max_value_size, slots: Vec::new() };
        assert(s@ =~= Map::<nat, Entry>::empty());
        s
    }

    /// Name of the data set that the store holds.
    pub fn domain(&self) -> (d: &str)
        ensures
            d@ == self.spec_domain(),
    {
        self.domain.as_str()
    }

    /// Whether the two stores hold the same data set.
    pub fn same_domain(&self, other: &MemoryStore) -> (r: bool)
        ensures
            r == (self.spec_domain() == other.spec_domain()),
    {
        self.domain == other.domain
    }

    /// Whether the store holds the data set `name`.
    pub fn is_domain(&self, name: &String) -> (r: bool)
        ensures
            r == (self.spec_domain() == name@),
    {
        self.domain == *name
    }

    /// Largest value, in bytes, that the store admits.
    pub fn max_value_size(&self) -> (n: usize)
        ensures
            n == self.spec_max_value_size(),
    {
        self.max_value_size
    }

    /// Index of the first slot whose key is not below `key`.
    fn lower_bound(&self, key: &Key) -> (p: usize)
        requires
            self.wf(),
        ensures
            p <= self.slots@.len(),
            forall|i: int| 0 <= i < p ==> (#[trigger] self.slots@[i]).key@ < key@,
            forall|i: int| p <= i < self.slots@.len() ==> (#[trigger] self.slots@[i]).key@ >= key@,
    {
        let mut lo: usize = 0;
        let mut hi: usize = self.slots.len();
        while lo < hi
            invariant
                lo <= hi <= self.slots@.len(),
                sorted(self.slots@),
                forall|i: int| 0 <= i < lo ==> (#[trigger] self.slots@[i]).key@ < key@,
                forall|i: int|
                    hi <= i < self.slots@.len() ==> (#[trigger] self.slots@[i]).key@ >= key@,
            decreases hi - lo,
        {
            let mid: usize = lo + (hi - lo) / 2;
            if self.slots[mid].key.lt(key) {
                assert forall|i: int| 0 <= i < mid + 1 implies (#[trigger] self.slots@[i]).key@
                    < key@ by {
                    if i < mid {
                        assert(self.slots@[i].key@ < self.slots@[mid as int].key@);
                    }
                }
                lo = mid + 1;
            } else {
                assert forall|i: int| mid <= i < self.slots@.len() implies (
                #[trigger] self.slots@[i]).key@ >= key@ by {
                    if mid < i {
                        assert(self.slots@[mid as int].key@ < self.slots@[i].key@);
                    }
                }
                hi = mid;
            }
        }
        lo
    }

    /// The value held for `key`, if a query as of `watermark` sees one.
    pub fn load(&self, watermark: i64, key: &Key) -> (r: LoadResult)
        requires
            self.wf(),
        ensures
            r is Found <==> seen(self@, watermark, key@),
            r matches LoadResult::Found(value) ==> value@ == self@[key@].value,
    {
        let p = self.lower_bound(key);
        if p < self.slots.len() && self.slots[p].key.same(key) && self.slots[p].stamp <= watermark {
            proof {
                lemma_model_at(self.slots@, p as int);
            }
            LoadResult::Found(slice_to_vec(self.slots[p].value.as_slice()))
        } else {
            proof {
                if self@.contains_key(key@) {
                    let i = lemma_model_has(self.slots@, key@);
                    if i != p {
                        assert(self.slots@[i].key@ == key@);
                    }
                }
            }
            LoadResult::NotFound
        }
    }

    /// Stores `value` under `key` at time `now`. A value that the store
    /// already holds for the key is left as it is, with the time at which
    /// it was written; a value larger than the store admits is refused.
    pub fn store(&mut self, now: i64, key: &Key, value: &[u8]) -> (r: StoreResult)
        requires
            old(self).wf(),
        ensures
            final(self).wf(),
            final(self).spec_domain() == old(self).spec_domain(),
            final(self).spec_max_value_size() == old(self).spec_max_value_size(),
            r == old(self).spec_store_result(key@, value@),
            final(self)@ == old(self).spec_store(now, key@, value@),
    {
        if value.len() > self.max_value_size {
            return StoreResult::Rejected;
        }
        let p = self.lower_bound(key);
        let ghost before = self.slots@;
        if p < self.slots.len() && self.slots[p].key.same(key) {
            proof {
                lemma_model_at(before, p as int);
            }
            if bytes_equal(self.slots[p].value.as_slice(), value) {
                return StoreResult::Duplicate;
            }
            let slot = Slot { key: *key, value: slice_to_vec(value), stamp: now };
            self.slots.set(p, slot);
            proof {
                let after = self.slots@;
                assert(sorted(after)) by {
                    assert forall|i: int, j: int| 0 <= i < j < after.len() implies after[i].key@
                        < after[j].key@ by {
                        assert(before[i].key@ < before[j].key@);
                    }
                }
                let want = old(self)@.insert(key@, Entry { value: value@, stamp: now });
                assert forall|k: nat| want.contains_key(k) <==> model(after).contains_key(k) by {
                    if want.contains_key(k) {
                        if k == key@ {
                            lemma_model_at(after, p as int);
                        } else {
                            let i = lemma_model_has(before, k);
                            assert(after[i].key@ == k);
                            lemma_model_at(after, i);
                        }
                    }
                    if model(after).contains_key(k) {
                        let i = lemma_model_has(after, k);
                        assert(before[i].key@ == k);
                        lemma_model_at(before, i);
                    }
                }
                assert forall|k: nat| want.contains_key(k) implies want[k] == model(after)[k] by {
                    let i = lemma_model_has(after, k);
                    if i != p {
                        lemma_model_at(before, i);
                    }
                }
                assert(model(after) =~= want);
            }
            StoreResult::Stored
        } else {
            proof {
                if old(self)@.contains_key(key@) {
                    let i = lemma_model_has(before, key@);
                    assert(before[i].key@ == key@);
                }
            }
            let slot = Slot { key: *key, value: slice_to_vec(value), stamp: now };
            self.slots.insert(p, slot);
            proof {
                let after = self.slots@;
                assert(after == before.insert(p as int, slot));
                assert forall|i: int| 0 <= i < after.len() implies #[trigger] after[i] == (if i
                    < p {
                    before[i]
                } else if i == p {
                    slot
                } else {
                    before[i - 1]
                }) by {}
                assert(sorted(after)) by {
                    assert forall|i: int, j: int| 0 <= i < j < after.len() implies after[i].key@
                        < after[j].key@ by {
                        let bi = if i < p {
                            i
                        } else {
                            i - 1
                        };
                        let bj = if j < p {
                            j
                        } else {
                            j - 1
                        };
                        if i != p && j != p {
                            assert(before[bi].key@ < before[bj].key@);
                        } else if i == p {
                            assert(before[bj].key@ >= key@);
                            assert(before[bj].key@ != key@) by {
                                if bj == p {
                                } else {
                                    assert(before[p as int].key@ < before[bj].key@);
                                }
                            }
                        } else {
                            assert(before[bi].key@ < key@);
                        }
                    }
                }
                let want = old(self)@.insert(key@, Entry { value: value@, stamp: now });
                assert forall|k: nat| want.contains_key(k) <==> model(after).contains_key(k) by {
                    if want.contains_key(k) {
                        if k == key@ {
                            lemma_model_at(after, p as int);
                        } else {
                            let i = lemma_model_has(before, k);
                            let ai = if i < p {
                                i
                            } else {
                                i + 1
                            };
                            assert(after[ai].key@ == k);
                            lemma_model_at(after, ai);
                        }
                    }
                    if model(after).contains_key(k) {
                        let i = lemma_model_has(after, k);
                        if i != p {
                            let bi = if i < p {
                                i
                            } else {
                                i - 1
                            };
                            assert(before[bi].key@ == k);
                            lemma_model_at(before, bi);
                        }
                    }
                }
                assert forall|k: nat| want.contains_key(k) implies want[k] == model(after)[k] by {
                    let i = lemma_model_has(after, k);
                    if i != p {
                        let bi = if i < p {
                            i
                        } else {
                            i - 1
                        };
                        lemma_model_at(before, bi);
                    }
                }
                assert(model(after) =~= want);
            }
            StoreResult::Stored
        }
    }

    /// What storing `value` under `key` returns.
    pub open spec fn spec_store_result(&self, key: nat, value: Seq<u8>) -> StoreResult {
        if value.len() > self.spec_max_value_size() {
            StoreResult::Rejected
        } else if self@.contains_key(key) && self@[key].value == value {
            StoreResult::Duplicate
        } else {
            StoreResult::Stored
        }
    }

    /// The records after storing `value` under `key` at time `now`.
    pub open spec fn spec_store(&self, now: i64, key: nat, value: Seq<u8>) -> Map<nat, Entry> {
        if self.spec_store_result(key, value) == StoreResult::Stored {
            self@.insert(key, Entry { value, stamp: now })
        } else {
            self@
        }
    }

    /// The slots that a scan from `start` to `end` as of `watermark` hands
    /// out, in rising order.
    fn select(&self, watermark: i64, start: &Key, end: &Key) -> (sel: Vec<usize>)
        requires
            self.wf(),
        ensures
            is_selection(self.slots@, watermark, start@, end@, sel@),
    {
        let mut sel: Vec<usize> = Vec::new();
        let first = self.lower_bound(start);
        let mut i: usize = first;
        let ghost slots = self.slots@;
        while i < self.slots.len() && self.slots[i].key.le(end)
            invariant
                first <= i <= slots.len(),
                slots == self.slots@,
                sorted(slots),
                forall|j: int| 0 <= j < first ==> (#[trigger] slots[j]).key@ < start@,
                forall|j: int| first <= j < slots.len() ==> (#[trigger] slots[j]).key@ >= start@,
                forall|j: int| first <= j < i ==> (#[trigger] slots[j]).key@ <= end@,
                forall|a: int, b: int| 0 <= a < b < sel@.len() ==> sel@[a] < sel@[b],
                forall|a: int| 0 <= a < sel@.len() ==> (#[trigger] sel@[a]) < i,
                forall|a: int|
                    0 <= a < sel@.len() ==> selected(
                        slots,
                        watermark,
                        start@,
                        end@,
                        #[trigger] sel@[a] as int,
                    ),
                forall|j: int|
                    0 <= j < i && selected(slots, watermark, start@, end@, j) ==> exists|a: int|
                        0 <= a < sel@.len() && #[trigger] sel@[a] == j,
            decreases slots.len() - i,
        {
            if self.slots[i].stamp <= watermark {
                let ghost prev = sel@;
                sel.push(i);
                proof {
                    assert forall|j: int|
                        0 <= j < i + 1 && selected(
                            slots,
                            watermark,
                            start@,
                            end@,
                            j,
                        ) implies exists|a: int| 0 <= a < sel@.len() && #[trigger] sel@[a] == j by {
                        if j < i {
                            let a = choose|a: int| 0 <= a < prev.len() && #[trigger] prev[a] == j;
                            assert(sel@[a] == j);
                        } else {
                            assert(sel@[prev.len() as int] == j);
                        }
                    }
                }
            }
            i += 1;
        }
        proof {
            assert forall|j: int|
                selected(slots, watermark, start@, end@, j) implies exists|a: int|
                0 <= a < sel@.len() && #[trigger] sel@[a] == j by {
                if j >= i {
                    assert(i < slots.len());
                    assert(slots[i as int].key@ > end@);
                    if j > i {
                        assert(slots[i as int].key@ < slots[j].key@);
                    }
                }
            }
        }
        sel
    }

    /// Number of keys from `start` to `end` that a query as of `watermark`
    /// sees.
    pub fn count(&self, watermark: i64, start: &Key, end: &Key) -> (n: u64)
        requires
            self.wf(),
        ensures
            n == self.keys_in(watermark, start@, end@).len(),
    {
        let sel = self.select(watermark, start, end);
        proof {
            lemma_selection_counts(self.slots@, watermark, start@, end@, sel@);
        }
        sel.len() as u64
    }

    /// Number of records in the store.
    pub fn total_count(&self) -> (n: u64)
        requires
            self.wf(),
        ensures
            n == self@.dom().len(),
    {
        proof {
            let slots = self.slots@;
            let ks = Seq::new(slots.len(), |i: int| slots[i].key@);
            assert forall|k: nat| ks.to_set().contains(k) <==> self@.dom().contains(k) by {
                if ks.to_set().contains(k) {
                    let i = choose|i: int| 0 <= i < ks.len() && ks[i] == k;
                    lemma_model_at(slots, i);
                }
                if self@.dom().contains(k) {
                    let i = lemma_model_has(slots, k);
                    assert(ks[i] == k);
                }
            }
            assert(ks.to_set() =~= self@.dom());
            assert(ks.no_duplicates());
            ks.unique_seq_to_set();
        }
        self.slots.len() as u64
    }

    /// Whether `keys` lists, in rising order, exactly the keys from `lo` to
    /// `hi` that a query as of `w` sees.
    pub open spec fn lists_keys(&self, w: i64, lo: nat, hi: nat, keys: Seq<nat>) -> bool {
        &&& rising(keys)
        &&& keys.to_set() == self.keys_in(w, lo, hi)
    }

    /// The records from `start` to `end` that a query as of `watermark`
    /// sees, in the order of their keys.
    pub fn for_each(&self, watermark: i64, start: &Key, end: &Key) -> (out: Vec<Record>)
        requires
            self.wf(),
        ensures
            out@.len() == self.keys_in(watermark, start@, end@).len(),
            self.lists_keys(
                watermark,
                start@,
                end@,
                Seq::new(out@.len(), |i: int| out@[i].key@),
            ),
            forall|i: int|
                0 <= i < out@.len() ==> (#[trigger] out@[i]).value@ == self@[out@[i].key@].value,
    {
        let sel = self.select(watermark, start, end);
        let ghost slots = self.slots@;
        let mut out: Vec<Record> = Vec::new();
        let mut a: usize = 0;
        while a < sel.len()
            invariant
                a <= sel@.len(),
                out@.len() == a,
                slots == self.slots@,
                is_selection(slots, watermark, start@, end@, sel@),
                forall|i: int|
                    0 <= i < a ==> (#[trigger] out@[i]).key@ == slots[sel@[i] as int].key@
                        && out@[i].value@ == slots[sel@[i] as int].value@,
            decreases sel@.len() - a,
        {
            let i: usize = sel[a];
            assert(selected(slots, watermark, start@, end@, sel@[a as int] as int));
            let slot = &self.slots[i];
            out.push(Record { key: slot.key, value: slice_to_vec(slot.value.as_slice()) });
            a += 1;
        }
        proof {
            lemma_selection_counts(slots, watermark, start@, end@, sel@);
            let keys = Seq::new(out@.len(), |i: int| out@[i].key@);
            self.lemma_selected_keys(watermark, start@, end@, sel@, keys);
            assert forall|i: int| 0 <= i < out@.len() implies (#[trigger] out@[i]).value@
                == self@[out@[i].key@].value by {
                assert(selected(slots, watermark, start@, end@, sel@[i] as int));
                lemma_model_at(slots, sel@[i] as int);
            }
        }
        out
    }

    /// The keys from `start` to `end` that a query as of `watermark` sees,
    /// in rising order.
    pub fn key_list(&self, watermark: i64, start: &Key, end: &Key) -> (out: Vec<Key>)
        requires
            self.wf(),
        ensures
            out@.len() == self.keys_in(watermark, start@, end@).len(),
            self.lists_keys(watermark, start@, end@, key_numbers(out@)),
    {
        let sel = self.select(watermark, start, end);
        let ghost slots = self.slots@;
        let mut out: Vec<Key> = Vec::new();
        let mut a: usize = 0;
        while a < sel.len()
            invariant
                a <= sel@.len(),
                out@.len() == a,
                slots == self.slots@,
                is_selection(slots, watermark, start@, end@, sel@),
                forall|i: int| 0 <= i < a ==> (#[trigger] out@[i])@ == slots[sel@[i] as int].key@,
            decreases sel@.len() - a,
        {
            let i: usize = sel[a];
            assert(selected(slots, watermark, start@, end@, sel@[a as int] as int));
            out.push(self.slots[i].key);
            a += 1;
        }
        proof {
            lemma_selection_counts(slots, watermark, start@, end@, sel@);
            self.lemma_selected_keys(watermark, start@, end@, sel@, key_numbers(out@));
        }
        out
    }

    proof fn lemma_selected_keys(&self, w: i64, lo: nat, hi: nat, sel: Seq<usize>, keys: Seq<nat>)
        requires
            self.wf(),
            is_selection(self.slots@, w, lo, hi, sel),
            keys.len() == sel.len(),
            forall|i: int| 0 <= i < sel.len() ==> keys[i] == self.slots@[sel[i] as int].key@,
        ensures
            self.lists_keys(w, lo, hi, keys),
    {
        let slots = self.slots@;
        assert forall|a: int, b: int| 0 <= a < b < keys.len() implies keys[a] < keys[b] by {
            assert(sel[a] < sel[b]);
            assert(selected(slots, w, lo, hi, sel[b] as int));
        }
        let target = self.keys_in(w, lo, hi);
        assert forall|k: nat| keys.to_set().contains(k) <==> target.contains(k) by {
            if keys.to_set().contains(k) {
                let a = choose|a: int| 0 <= a < keys.len() && keys[a] == k;
                assert(selected(slots, w, lo, hi, sel[a] as int));
                lemma_model_at(slots, sel[a] as int);
            }
            if target.contains(k) {
                let i = lemma_model_has(slots, k);
                assert(selected(slots, w, lo, hi, i));
                let a = choose|a: int| 0 <= a < sel.len() && #[trigger] sel[a] == i;
                assert(keys[a] == k);
            }
        }
        assert(keys.to_set() =~= target);
    }
}

} // verus!
