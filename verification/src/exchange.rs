//! Exact comparison of one range: key lists, what each side owes the
//! other, and the transfer of records.

use crate::bisect::{absorbed, owed, received, span_keys};
use crate::key::Key;
use crate::range::KeyRange;
use crate::reconcile::ReconcileError;
use crate::store::{key_numbers, rising, seen, LoadResult, MemoryStore, StoreResult};
use vstd::prelude::*;

verus! {

/// A breach of the protocol by the other side.
#[derive(Clone, Copy, Debug, PartialEq, Eq, Structural)]
pub enum Violation {
    /// A record carried a value larger than the store admits.
    OversizedValue,
    /// A key list was out of order or named a key outside the range asked
    /// for.
    MalformedKeyList,
    /// A request named a data set that the store does not hold.
    WrongDomain,
}

/// What the two sides send each other for one range.
#[derive(Clone, Debug)]
pub struct ExchangePlan {
    /// Keys that only this side holds: their records are pushed.
    pub push: Vec<Key>,
    /// Keys that only the other side holds: their records are requested.
    pub pull: Vec<Key>,
}

/// Whether `keys` is a list that a side may send for `range`: in rising
/// order, and of keys of the range only.
pub open spec fn valid_key_list(range: KeyRange, keys: Seq<Key>) -> bool {
    &&& rising(key_numbers(keys))
    &&& forall|i: int| 0 <= i < keys.len() ==> range@.contains(#[trigger] keys[i]@)
}

/// Whether `plan` sends exactly the keys that one of the two lists holds
/// and the other does not, each list in rising order.
pub open spec fn plan_matches(plan: ExchangePlan, local: Seq<Key>, remote: Seq<Key>) -> bool {
    &&& rising(key_numbers(plan.push@))
    &&& rising(key_numbers(plan.pull@))
    &&& key_numbers(plan.push@).to_set() == key_numbers(local).to_set().difference(
        key_numbers(remote).to_set(),
    )
    &&& key_numbers(plan.pull@).to_set() == key_numbers(remote).to_set().difference(
        key_numbers(local).to_set(),
    )
}

/// Whether `keys` may be sent for `range`.
pub fn check_key_list(range: &KeyRange, keys: &Vec<Key>) -> (ok: bool)
    ensures
        ok == valid_key_list(*range, keys@),
{
    let n = keys.len();
    let mut i: usize = 0;
    while i < n
        invariant
            i <= n,
            n == keys@.len(),
            forall|a: int| 0 <= a < i ==> range@.contains(#[trigger] keys@[a]@),
            forall|a: int| 0 <= a < i - 1 ==> (#[trigger] keys@[a])@ < keys@[a + 1]@,
        decreases n - i,
    {
        if !range.contains(&keys[i]) {
            return false;
        }
        if i > 0 && !keys[i - 1].lt(&keys[i]) {
            proof {
                let nums = key_numbers(keys@);
                assert(nums[i - 1] >= nums[i as int]);
            }
            return false;
        }
        i += 1;
    }
    proof {
        lemma_steps_rise(keys@, n as int);
    }
    true
}

/// A list whose every key is smaller than the one after it is in rising
/// order.
proof fn lemma_steps_rise(keys: Seq<Key>, n: int)
    requires
        n == keys.len(),
        forall|a: int| 0 <= a < n - 1 ==> (#[trigger] keys[a])@ < keys[a + 1]@,
    ensures
        rising(key_numbers(keys)),
{
    let nums = key_numbers(keys);
    assert forall|a: int, b: int| 0 <= a < b < nums.len() implies nums[a] < nums[b] by {
        lemma_step_chain(keys, a, b);
    }
}

proof fn lemma_step_chain(keys: Seq<Key>, a: int, b: int)
    requires
        0 <= a < b < keys.len(),
        forall|c: int| 0 <= c < keys.len() - 1 ==> (#[trigger] keys[c])@ < keys[c + 1]@,
    ensures
        keys[a]@ < keys[b]@,
    decreases b - a,
{
    if a + 1 < b {
        lemma_step_chain(keys, a, b - 1);
        assert(keys[b - 1]@ < keys[b - 1 + 1]@);
    } else {
        assert(keys[a]@ < keys[a + 1]@);
    }
}

/// What the two sides owe each other, from their key lists for one range.
fn diff_rising(local: &Vec<Key>, remote: &Vec<Key>) -> (plan: ExchangePlan)
    requires
        rising(key_numbers(local@)),
        rising(key_numbers(remote@)),
    ensures
        plan_matches(plan, local@, remote@),
{
    let n = local.len();
    let m = remote.len();
    let ghost ln = key_numbers(local@);
    let ghost rn = key_numbers(remote@);
    let mut push: Vec<Key> = Vec::new();
    let mut pull: Vec<Key> = Vec::new();
    let mut i: usize = 0;
    let mut j: usize = 0;
    while i < n || j < m
        invariant
            i <= n,
            j <= m,
            n == local@.len(),
            m == remote@.len(),
            ln == key_numbers(local@),
            rn == key_numbers(remote@),
            rising(ln),
            rising(rn),
            rising(key_numbers(push@)),
            rising(key_numbers(pull@)),
            i < n ==> forall|a: int| 0 <= a < push@.len() ==> (#[trigger] push@[a])@ < ln[i as int],
            j < m ==> forall|a: int| 0 <= a < pull@.len() ==> (#[trigger] pull@[a])@ < rn[j as int],
            i < n ==> forall|b: int| 0 <= b < j ==> #[trigger] rn[b] < ln[i as int],
            j < m ==> forall|a: int| 0 <= a < i ==> #[trigger] ln[a] < rn[j as int],
            forall|a: int| 0 <= a < push@.len() ==> ln.contains(#[trigger] push@[a]@) && !rn.contains(push@[a]@),
            forall|a: int| 0 <= a < pull@.len() ==> rn.contains(#[trigger] pull@[a]@) && !ln.contains(pull@[a]@),
            forall|a: int|
                0 <= a < i && !rn.contains(#[trigger] ln[a]) ==> key_numbers(push@).contains(ln[a]),
            forall|b: int|
                0 <= b < j && !ln.contains(#[trigger] rn[b]) ==> key_numbers(pull@).contains(rn[b]),
        decreases (n - i) + (m - j),
    {
        let ghost push_before = push@;
        let ghost pull_before = pull@;
        if j == m || (i < n && local[i].lt(&remote[j])) {
            let key = local[i];
            proof {
                assert(ln[i as int] == key@);
                assert forall|b: int| 0 <= b < m implies rn[b] != key@ by {
                    if b >= j {
                        if b > j {
                            assert(rn[j as int] < rn[b]);
                        }
                    }
                }
                assert(!rn.contains(key@));
            }
            push.push(key);
            i += 1;
            proof {
                let pn = key_numbers(push@);
                assert forall|a: int, b: int| 0 <= a < b < pn.len() implies pn[a] < pn[b] by {
                    if b < push_before.len() {
                        assert(key_numbers(push_before)[a] < key_numbers(push_before)[b]);
                    } else {
                        assert(push_before[a]@ < key@);
                    }
                }
                assert forall|a: int| 0 <= a < push@.len() implies ln.contains(
                    #[trigger] push@[a]@,
                ) && !rn.contains(push@[a]@) by {
                    if a < push_before.len() {
                        assert(push@[a] == push_before[a]);
                    } else {
                        assert(ln[i - 1] == key@);
                    }
                }
                assert forall|a: int| 0 <= a < i && !rn.contains(#[trigger] ln[a]) implies pn.contains(
                    ln[a],
                ) by {
                    if a < i - 1 {
                        let c = choose|c: int|
                            0 <= c < push_before.len() && key_numbers(push_before)[c] == ln[a];
                        assert(pn[c] == ln[a]);
                    } else {
                        assert(pn[push_before.len() as int] == ln[a]);
                    }
                }
                if i < n {
                    assert(ln[i - 1] < ln[i as int]);
                    assert forall|a: int| 0 <= a < push@.len() implies (#[trigger] push@[a])@
                        < ln[i as int] by {
                        if a < push_before.len() {
                            assert(push_before[a]@ < ln[i - 1]);
                        }
                    }
                    assert forall|b: int| 0 <= b < j implies #[trigger] rn[b] < ln[i as int] by {
                        assert(rn[b] < ln[i - 1]);
                    }
                }
            }
        } else if i == n || remote[j].lt(&local[i]) {
            let key = remote[j];
            proof {
                assert(rn[j as int] == key@);
                assert forall|a: int| 0 <= a < n implies ln[a] != key@ by {
                    if a >= i {
                        if a > i {
                            assert(ln[i as int] < ln[a]);
                        }
                    }
                }
                assert(!ln.contains(key@));
            }
            pull.push(key);
            j += 1;
            proof {
                let qn = key_numbers(pull@);
                assert forall|a: int, b: int| 0 <= a < b < qn.len() implies qn[a] < qn[b] by {
                    if b < pull_before.len() {
                        assert(key_numbers(pull_before)[a] < key_numbers(pull_before)[b]);
                    } else {
                        assert(pull_before[a]@ < key@);
                    }
                }
                assert forall|a: int| 0 <= a < pull@.len() implies rn.contains(
                    #[trigger] pull@[a]@,
                ) && !ln.contains(pull@[a]@) by {
                    if a < pull_before.len() {
                        assert(pull@[a] == pull_before[a]);
                    } else {
                        assert(rn[j - 1] == key@);
                    }
                }
                assert forall|b: int| 0 <= b < j && !ln.contains(#[trigger] rn[b]) implies qn.contains(
                    rn[b],
                ) by {
                    if b < j - 1 {
                        let c = choose|c: int|
                            0 <= c < pull_before.len() && key_numbers(pull_before)[c] == rn[b];
                        assert(qn[c] == rn[b]);
                    } else {
                        assert(qn[pull_before.len() as int] == rn[b]);
                    }
                }
                if j < m {
                    assert(rn[j - 1] < rn[j as int]);
                    assert forall|a: int| 0 <= a < pull@.len() implies (#[trigger] pull@[a])@
                        < rn[j as int] by {
                        if a < pull_before.len() {
                            assert(pull_before[a]@ < rn[j - 1]);
                        }
                    }
                    assert forall|a: int| 0 <= a < i implies #[trigger] ln[a] < rn[j as int] by {
                        assert(ln[a] < rn[j - 1]);
                    }
                }
            }
        } else {
            proof {
                assert(ln[i as int] == local@[i as int]@);
                assert(rn[j as int] == remote@[j as int]@);
                assert(ln[i as int] == rn[j as int]);
                assert(rn.contains(ln[i as int]));
                assert(ln.contains(rn[j as int]));
            }
            i += 1;
            j += 1;
            proof {
                if i < n {
                    assert(ln[i - 1] < ln[i as int]);
                    assert forall|a: int| 0 <= a < push@.len() implies (#[trigger] push@[a])@
                        < ln[i as int] by {
                        assert(push@[a]@ < ln[i - 1]);
                    }
                    assert forall|b: int| 0 <= b < j implies #[trigger] rn[b] < ln[i as int] by {
                        if b < j - 1 {
                            assert(rn[b] < ln[i - 1]);
                        }
                    }
                }
                if j < m {
                    assert(rn[j - 1] < rn[j as int]);
                    assert forall|a: int| 0 <= a < pull@.len() implies (#[trigger] pull@[a])@
                        < rn[j as int] by {
                        assert(pull@[a]@ < rn[j - 1]);
                    }
                    assert forall|a: int| 0 <= a < i implies #[trigger] ln[a] < rn[j as int] by {
                        if a < i - 1 {
                            assert(ln[a] < rn[j - 1]);
                        }
                    }
                }
            }
        }
    }
    let plan = ExchangePlan { push, pull };
    proof {
        let pn = key_numbers(plan.push@);
        let qn = key_numbers(plan.pull@);
        assert forall|k: nat| pn.to_set().contains(k) <==> ln.to_set().difference(
            rn.to_set(),
        ).contains(k) by {
            if pn.contains(k) {
                let a = choose|a: int| 0 <= a < pn.len() && pn[a] == k;
                assert(ln.contains(plan.push@[a]@));
            }
            if ln.contains(k) && !rn.contains(k) {
                let a = choose|a: int| 0 <= a < ln.len() && ln[a] == k;
                assert(!rn.contains(ln[a]));
            }
        }
        assert(pn.to_set() =~= ln.to_set().difference(rn.to_set()));
        assert forall|k: nat| qn.to_set().contains(k) <==> rn.to_set().difference(
            ln.to_set(),
        ).contains(k) by {
            if qn.contains(k) {
                let a = choose|a: int| 0 <= a < qn.len() && qn[a] == k;
                assert(rn.contains(plan.pull@[a]@));
            }
            if rn.contains(k) && !ln.contains(k) {
                let b = choose|b: int| 0 <= b < rn.len() && rn[b] == k;
                assert(!ln.contains(rn[b]));
            }
        }
        assert(qn.to_set() =~= rn.to_set().difference(ln.to_set()));
    }
    plan
}

/// What the two sides owe each other for `range`, from the key list of
/// each. A list that is out of order or leaves the range is a breach of the
/// protocol.
pub fn plan_exchange(range: &KeyRange, local: &Vec<Key>, remote: &Vec<Key>) -> (r: Result<
    ExchangePlan,
    Violation,
>)
    ensures
        r is Ok <==> valid_key_list(*range, local@) && valid_key_list(*range, remote@),
        r matches Ok(plan) ==> plan_matches(plan, local@, remote@),
        r matches Err(e) ==> e == Violation::MalformedKeyList,
{
    if check_key_list(range, local) && check_key_list(range, remote) {
        Ok(diff_rising(local, remote))
    } else {
        Err(Violation::MalformedKeyList)
    }
}

/// Stores a record that the other side sent. A value larger than the store
/// admits is a breach of the protocol and leaves the store as it was.
pub fn apply_record(store: &mut MemoryStore, now: i64, key: &Key, value: &[u8]) -> (r: Result<
    StoreResult,
    Violation,
>)
    requires
        old(store).wf(),
    ensures
        final(store).wf(),
        final(store).spec_domain() == old(store).spec_domain(),
        final(store).spec_max_value_size() == old(store).spec_max_value_size(),
        r is Err <==> value@.len() > old(store).spec_max_value_size(),
        r matches Err(e) ==> e == Violation::OversizedValue && final(store)@ == old(store)@,
        r matches Ok(outcome) ==> outcome == old(store).spec_store_result(key@, value@)
            && final(store)@ == old(store).spec_store(now, key@, value@),
{
    match store.store(now, key, value) {
        StoreResult::Rejected => Err(Violation::OversizedValue),
        outcome => Ok(outcome),
    }
}

/// The numbers of the keys of a list, as a set.
pub open spec fn key_set(keys: Seq<Key>) -> Set<nat> {
    key_numbers(keys).to_set()
}

/// Copies the records of `keys` from one store into the other.
fn transfer(from: &MemoryStore, to: &mut MemoryStore, watermark: i64, now: i64, keys: &Vec<Key>)
    requires
        from.wf(),
        old(to).wf(),
        from.spec_max_value_size() == old(to).spec_max_value_size(),
        forall|i: int| 0 <= i < keys@.len() ==> seen(from@, watermark, #[trigger] keys@[i]@),
    ensures
        final(to).wf(),
        final(to).spec_domain() == old(to).spec_domain(),
        final(to).spec_max_value_size() == old(to).spec_max_value_size(),
        final(to)@ == received(old(to)@, from@, now, key_set(keys@)),
{
    let n = keys.len();
    let mut i: usize = 0;
    proof {
        from.lemma_contents();
        assert(key_set(keys@.take(0)) =~= Set::<nat>::empty());
        assert(to@ =~= received(to@, from@, now, Set::<nat>::empty()));
    }
    while i < n
        invariant
            i <= n,
            n == keys@.len(),
            from.wf(),
            to.wf(),
            to.spec_domain() == old(to).spec_domain(),
            to.spec_max_value_size() == old(to).spec_max_value_size(),
            from.spec_max_value_size() == to.spec_max_value_size(),
            forall|a: int| 0 <= a < keys@.len() ==> seen(from@, watermark, #[trigger] keys@[a]@),
            forall|k: nat|
                from@.contains_key(k) ==> (#[trigger] from@[k]).value.len()
                    <= from.spec_max_value_size(),
            to@ == received(old(to)@, from@, now, key_set(keys@.take(i as int))),
        decreases n - i,
    {
        let key = keys[i];
        let ghost before = to@;
        let ghost done = key_set(keys@.take(i as int));
        match from.load(watermark, &key) {
            LoadResult::Found(value) => {
                to.store(now, &key, value.as_slice());
                proof {
                    let more = key_set(keys@.take(i + 1));
                    assert(keys@.take(i + 1) =~= keys@.take(i as int).push(key));
                    assert forall|k: nat| more.contains(k) <==> done.contains(k) || k == key@ by {
                        let s0 = key_numbers(keys@.take(i as int));
                        let s1 = key_numbers(keys@.take(i + 1));
                        if s1.contains(k) {
                            let a = choose|a: int| 0 <= a < s1.len() && s1[a] == k;
                            if a < i {
                                assert(s0[a] == k);
                            }
                        }
                        if s0.contains(k) {
                            let a = choose|a: int| 0 <= a < s0.len() && s0[a] == k;
                            assert(s1[a] == k);
                        }
                        if k == key@ {
                            assert(s1[i as int] == k);
                        }
                    }
                    assert(from@[key@].value.len() <= from.spec_max_value_size());
                    assert(to@ =~= received(old(to)@, from@, now, more));
                }
            },
            LoadResult::NotFound => {
                proof {
                    assert(seen(from@, watermark, keys@[i as int]@));
                }
            },
        }
        i += 1;
    }
    proof {
        assert(keys@.take(n as int) =~= keys@);
    }
}

/// What comparing one range key by key did.
#[derive(Clone, Copy, Debug, PartialEq, Eq)]
pub struct Exchanged {
    /// Records sent to the other side.
    pub pushed: usize,
    /// Records taken from the other side.
    pub pulled: usize,
}

/// Compares `range` key by key as of `watermark`: each side is sent, with
/// the time `now`, the records of the range that the other sees and it
/// does not. Stores that hold different data sets, or admit values of
/// different sizes, are left as they are.
pub fn exchange_range(
    local: &mut MemoryStore,
    remote: &mut MemoryStore,
    watermark: i64,
    now: i64,
    range: &KeyRange,
) -> (r: Result<Exchanged, ReconcileError>)
    requires
        old(local).wf(),
        old(remote).wf(),
        range.wf(),
    ensures
        final(local).wf(),
        final(remote).wf(),
        final(local).spec_domain() == old(local).spec_domain(),
        final(remote).spec_domain() == old(remote).spec_domain(),
        final(local).spec_max_value_size() == old(local).spec_max_value_size(),
        final(remote).spec_max_value_size() == old(remote).spec_max_value_size(),
        r == Err::<Exchanged, ReconcileError>(ReconcileError::DomainMismatch) <==> old(
            local,
        ).spec_domain() != old(remote).spec_domain(),
        r == Err::<Exchanged, ReconcileError>(ReconcileError::LimitMismatch) <==> old(
            local,
        ).spec_domain() == old(remote).spec_domain() && old(local).spec_max_value_size() != old(
            remote,
        ).spec_max_value_size(),
        r is Err ==> final(local)@ == old(local)@ && final(remote)@ == old(remote)@,
        r matches Ok(done) ==> {
            let region = span_keys(range@);
            &&& final(local)@ == absorbed(old(local)@, old(remote)@, watermark, now, region)
            &&& final(remote)@ == absorbed(old(remote)@, old(local)@, watermark, now, region)
            &&& done.pushed == owed(old(remote)@, old(local)@, watermark, region).len()
            &&& done.pulled == owed(old(local)@, old(remote)@, watermark, region).len()
        },
{
    if !local.same_domain(remote) {
        return Err(ReconcileError::DomainMismatch);
    }
    if local.max_value_size() != remote.max_value_size() {
        return Err(ReconcileError::LimitMismatch);
    }
    Ok(exchange_alike(local, remote, watermark, now, range))
}

/// Compares `range` key by key between two stores that admit values of the
/// same size.
pub(crate) fn exchange_alike(
    local: &mut MemoryStore,
    remote: &mut MemoryStore,
    watermark: i64,
    now: i64,
    range: &KeyRange,
) -> (done: Exchanged)
    requires
        old(local).wf(),
        old(remote).wf(),
        old(local).spec_max_value_size() == old(remote).spec_max_value_size(),
        range.wf(),
    ensures
        final(local).wf(),
        final(remote).wf(),
        final(local).spec_domain() == old(local).spec_domain(),
        final(remote).spec_domain() == old(remote).spec_domain(),
        final(local).spec_max_value_size() == old(local).spec_max_value_size(),
        final(remote).spec_max_value_size() == old(remote).spec_max_value_size(),
        final(local)@ == absorbed(old(local)@, old(remote)@, watermark, now, span_keys(range@)),
        final(remote)@ == absorbed(old(remote)@, old(local)@, watermark, now, span_keys(range@)),
        done.pushed == owed(old(remote)@, old(local)@, watermark, span_keys(range@)).len(),
        done.pulled == owed(old(local)@, old(remote)@, watermark, span_keys(range@)).len(),
        owed(old(remote)@, old(local)@, watermark, span_keys(range@)).finite(),
        owed(old(local)@, old(remote)@, watermark, span_keys(range@)).finite(),
{
    let start = range.start();
    let end = range.end();
    let local_keys = local.key_list(watermark, &start, &end);
    let remote_keys = remote.key_list(watermark, &start, &end);
    let plan = diff_rising(&local_keys, &remote_keys);
    let ghost l0 = local@;
    let ghost r0 = remote@;
    let ghost region = span_keys(range@);
    let ghost push_set = key_set(plan.push@);
    let ghost pull_set = key_set(plan.pull@);
    proof {
        let ln = key_numbers(local_keys@);
        let rn = key_numbers(remote_keys@);
        assert(ln.to_set() == local.keys_in(watermark, start@, end@));
        assert(rn.to_set() == remote.keys_in(watermark, start@, end@));
        assert(push_set =~= owed(r0, l0, watermark, region));
        assert(pull_set =~= owed(l0, r0, watermark, region));
        assert forall|i: int| 0 <= i < plan.push@.len() implies seen(
            l0,
            watermark,
            #[trigger] plan.push@[i]@,
        ) by {
            assert(key_numbers(plan.push@)[i] == plan.push@[i]@);
            assert(push_set.contains(plan.push@[i]@));
        }
        lemma_rising_len(key_numbers(plan.push@));
        lemma_rising_len(key_numbers(plan.pull@));
    }
    transfer(local, remote, watermark, now, &plan.push);
    proof {
        assert forall|i: int| 0 <= i < plan.pull@.len() implies seen(
            remote@,
            watermark,
            #[trigger] plan.pull@[i]@,
        ) by {
            assert(key_numbers(plan.pull@)[i] == plan.pull@[i]@);
            assert(pull_set.contains(plan.pull@[i]@));
        }
    }
    let ghost r1 = remote@;
    transfer(remote, local, watermark, now, &plan.pull);
    proof {
        assert(local@ =~= received(l0, r0, now, pull_set));
    }
    Exchanged { pushed: plan.push.len(), pulled: plan.pull.len() }
}

/// A list in rising order holds as many keys as the set of its keys, which
/// is finite.
proof fn lemma_rising_len(keys: Seq<nat>)
    requires
        rising(keys),
    ensures
        keys.to_set().finite(),
        keys.to_set().len() == keys.len(),
{
    assert forall|a: int, b: int| 0 <= a < keys.len() && 0 <= b < keys.len() && a != b implies keys[a]
        != keys[b] by {
        if a < b {
            assert(keys[a] < keys[b]);
        } else {
            assert(keys[b] < keys[a]);
        }
    }
    keys.unique_seq_to_set();
    vstd::seq_lib::seq_to_set_is_finite(keys);
}

} // verus!
