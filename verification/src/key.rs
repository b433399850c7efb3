//! Fixed-length keys, read as big-endian numbers.
//!
//! A key is an opaque block of [`KEY_SIZE`] bytes. Keys are ordered byte by
//! byte, which for blocks of equal length is the order of the numbers the
//! blocks spell in base 256, most significant byte first. The model of a key
//! is that number.

use vstd::prelude::*;

verus! {

/// Number of bytes in every key.
pub const KEY_SIZE: usize = 64;

/// `256^n`.
pub open spec fn pow256(n: nat) -> nat
    decreases n,
{
    if n == 0 {
        1
    } else {
        256 * pow256((n - 1) as nat)
    }
}

/// Number of distinct keys: `256^64`.
pub open spec fn key_space() -> nat {
    pow256(64)
}

/// The number that `s` spells in base 256, most significant byte first.
pub open spec fn be_value(s: Seq<u8>) -> nat
    decreases s.len(),
{
    if s.len() == 0 {
        0
    } else {
        be_value(s.drop_last()) * 256 + s.last() as nat
    }
}

/// Byte-wise order: at the first place where `a` and `b` differ, `a` holds
/// the smaller byte.
pub open spec fn bytes_lt(a: Seq<u8>, b: Seq<u8>) -> bool {
    exists|i: int|
        0 <= i < a.len() && i < b.len() && a[i] < b[i] && forall|j: int|
            0 <= j < i ==> a[j] == b[j]
}

pub proof fn lemma_pow256_positive(n: nat)
    ensures
        pow256(n) > 0,
    decreases n,
{
    if n > 0 {
        lemma_pow256_positive((n - 1) as nat);
    }
}

pub proof fn lemma_be_value_bound(s: Seq<u8>)
    ensures
        be_value(s) < pow256(s.len()),
    decreases s.len(),
{
    if s.len() > 0 {
        lemma_be_value_bound(s.drop_last());
    }
}

/// Splits off the most significant byte.
pub proof fn lemma_be_value_head(s: Seq<u8>)
    requires
        s.len() > 0,
    ensures
        be_value(s) == s[0] as nat * pow256((s.len() - 1) as nat) + be_value(
            s.subrange(1, s.len() as int),
        ),
    decreases s.len(),
{
    let n = s.len() as int;
    let tail = s.subrange(1, n);
    if n == 1 {
        assert(s.drop_last() =~= Seq::<u8>::empty());
        assert(tail =~= Seq::<u8>::empty());
        assert(be_value(s.drop_last()) == 0);
        assert(be_value(tail) == 0);
        assert(pow256(0) == 1);
        assert(s.last() == s[0]);
        assert(s[0] as nat * pow256(0) == s[0] as nat) by (nonlinear_arith)
            requires
                pow256(0) == 1,
        ;
    } else {
        let front = s.drop_last();
        lemma_be_value_head(front);
        assert(front.subrange(1, n - 1) =~= tail.drop_last());
        assert(tail.last() == s.last());
        assert(front[0] == s[0]);
        let p = pow256((n - 2) as nat);
        let h = s[0] as nat;
        let t = be_value(tail.drop_last());
        assert(pow256((n - 1) as nat) == 256 * p);
        assert((h * p + t) * 256 == h * (256 * p) + t * 256) by (nonlinear_arith);
        assert(be_value(front) == h * p + t);
        assert(be_value(s) == be_value(front) * 256 + s.last() as nat);
        assert(be_value(tail) == t * 256 + tail.last() as nat);
        assert(h * pow256((n - 1) as nat) == h * (256 * p)) by (nonlinear_arith)
            requires
                pow256((n - 1) as nat) == 256 * p,
        ;
    }
}

/// A strict inequality between two prefixes of equal length survives
/// whatever bytes follow.
proof fn lemma_prefix_lt_extends(a: Seq<u8>, b: Seq<u8>, k: int, n: int)
    requires
        a.len() == b.len(),
        0 <= k <= n <= a.len(),
        be_value(a.subrange(0, k)) < be_value(b.subrange(0, k)),
    ensures
        be_value(a.subrange(0, n)) < be_value(b.subrange(0, n)),
    decreases n - k,
{
    if k < n {
        assert(a.subrange(0, k + 1).drop_last() =~= a.subrange(0, k));
        assert(b.subrange(0, k + 1).drop_last() =~= b.subrange(0, k));
        lemma_prefix_lt_extends(a, b, k + 1, n);
    }
}

/// Where the first differing byte of `a` is the smaller one, `a` spells the
/// smaller number.
proof fn lemma_bytes_lt_value(a: Seq<u8>, b: Seq<u8>)
    requires
        a.len() == b.len(),
        bytes_lt(a, b),
    ensures
        be_value(a) < be_value(b),
{
    let i = choose|i: int|
        0 <= i < a.len() && i < b.len() && a[i] < b[i] && forall|j: int|
            0 <= j < i ==> a[j] == b[j];
    assert(a.subrange(0, i) =~= b.subrange(0, i));
    assert(a.subrange(0, i + 1).drop_last() =~= a.subrange(0, i));
    assert(b.subrange(0, i + 1).drop_last() =~= b.subrange(0, i));
    lemma_prefix_lt_extends(a, b, i + 1, a.len() as int);
    assert(a.subrange(0, a.len() as int) =~= a);
    assert(b.subrange(0, b.len() as int) =~= b);
}

/// Two different blocks of equal length differ at a first place.
proof fn lemma_first_difference(a: Seq<u8>, b: Seq<u8>, from: int) -> (i: int)
    requires
        a.len() == b.len(),
        a != b,
        0 <= from <= a.len(),
        forall|j: int| 0 <= j < from ==> a[j] == b[j],
    ensures
        0 <= i < a.len(),
        a[i] != b[i],
        forall|j: int| 0 <= j < i ==> a[j] == b[j],
    decreases a.len() - from,
{
    if from == a.len() {
        assert(a =~= b);
        0
    } else if a[from] != b[from] {
        from
    } else {
        lemma_first_difference(a, b, from + 1)
    }
}

/// The byte-wise order of blocks of equal length is the order of the
/// numbers they spell, and different blocks spell different numbers.
pub proof fn lemma_value_order_is_bytewise(a: Seq<u8>, b: Seq<u8>)
    requires
        a.len() == b.len(),
    ensures
        bytes_lt(a, b) <==> be_value(a) < be_value(b),
        a == b <==> be_value(a) == be_value(b),
{
    if bytes_lt(a, b) {
        lemma_bytes_lt_value(a, b);
    }
    if a != b {
        let i = lemma_first_difference(a, b, 0);
        if a[i] < b[i] {
            assert(bytes_lt(a, b));
            lemma_bytes_lt_value(a, b);
        } else {
            assert(bytes_lt(b, a));
            lemma_bytes_lt_value(b, a);
        }
    }
}

/// An opaque, fixed-length identifier.
#[derive(Clone, Copy, Debug)]
pub struct Key {
    bytes: [u8; 64],
}

impl View for Key {
    type V = nat;

    /// The key as a number: its bytes read in base 256, most significant
    /// first.
    open spec fn view(&self) -> nat {
        be_value(self.octets())
    }
}

impl Key {
    /// The bytes of the key, in order.
    pub closed spec fn octets(&self) -> Seq<u8> {
        self.bytes@
    }

    /// Every key has `KEY_SIZE` bytes, and its number lies below
    /// `key_space()`.
    pub proof fn lemma_shape(&self)
        ensures
            self.octets().len() == 64,
            self@ < key_space(),
    {
        lemma_be_value_bound(self.bytes@);
    }

    /// Keys are ordered byte-wise, and keys with the same number have the
    /// same bytes.
    pub proof fn lemma_order(&self, other: &Key)
        ensures
            bytes_lt(self.octets(), other.octets()) <==> self@ < other@,
            self.octets() == other.octets() <==> self@ == other@,
    {
        lemma_value_order_is_bytewise(self.bytes@, other.bytes@);
    }

    /// The key with the given bytes.
    pub fn new(bytes: [u8; 64]) -> (k: Key)
        ensures
            k.octets() == bytes@,
    {
        Key { bytes }
    }

    /// The key spelled by `bytes`, if there are exactly `KEY_SIZE` of them.
    pub fn from_slice(bytes: &[u8]) -> (r: Option<Key>)
        ensures
            r is Some <==> bytes@.len() == 64,
            r matches Some(k) ==> k.octets() == bytes@,
    {
        if bytes.len() != KEY_SIZE {
            return None;
        }
        let mut out = [0u8; 64];
        let mut i: usize = 0;
        while i < 64
            invariant
                i <= 64,
                bytes@.len() == 64,
                forall|j: int| 0 <= j < i ==> out@[j] == bytes@[j],
            decreases 64 - i,
        {
            out[i] = bytes[i];
            i += 1;
        }
        assert(out@ =~= bytes@);
        Some(Key { bytes: out })
    }

    /// The bytes of the key.
    pub fn to_bytes(&self) -> (r: [u8; 64])
        ensures
            r@ == self.octets(),
    {
        self.bytes
    }

    /// The bytes of the key, as a vector.
    pub fn to_vec(&self) -> (r: Vec<u8>)
        ensures
            r@ == self.octets(),
    {
        let mut out: Vec<u8> = Vec::new();
        let mut i: usize = 0;
        while i < 64
            invariant
                i <= 64,
                out@.len() == i,
                forall|j: int| 0 <= j < i ==> out@[j] == self.bytes@[j],
            decreases 64 - i,
        {
            out.push(self.bytes[i]);
            i += 1;
        }
        assert(out@ =~= self.bytes@);
        out
    }

    /// The least key: every byte zero.
    pub fn min() -> (k: Key)
        ensures
            k@ == 0,
            forall|i: int| 0 <= i < 64 ==> k.octets()[i] == 0u8,
    {
        let k = Key { bytes: [0u8; 64] };
        proof {
            lemma_all_zero(k.bytes@, 64);
            assert(k.bytes@.subrange(0, 64) =~= k.bytes@);
        }
        k
    }

    /// The greatest key: every byte `0xff`.
    pub fn max() -> (k: Key)
        ensures
            k@ == key_space() - 1,
            forall|i: int| 0 <= i < 64 ==> k.octets()[i] == 0xffu8,
    {
        let k = Key { bytes: [0xffu8; 64] };
        proof {
            lemma_all_ones(k.bytes@, 64);
            assert(k.bytes@.subrange(0, 64) =~= k.bytes@);
        }
        k
    }

    /// Whether the two keys are the same key.
    pub fn same(&self, other: &Key) -> (r: bool)
        ensures
            r == (self@ == other@),
    {
        let mut i: usize = 0;
        while i < 64
            invariant
                i <= 64,
                forall|j: int| 0 <= j < i ==> self.bytes@[j] == other.bytes@[j],
            decreases 64 - i,
        {
            if self.bytes[i] != other.bytes[i] {
                proof {
                    lemma_value_order_is_bytewise(self.bytes@, other.bytes@);
                }
                return false;
            }
            i += 1;
        }
        assert(self.bytes@ =~= other.bytes@);
        true
    }

    /// Whether this key comes strictly before `other`.
    pub fn lt(&self, other: &Key) -> (r: bool)
        ensures
            r == (self@ < other@),
    {
        let mut i: usize = 0;
        while i < 64
            invariant
                i <= 64,
                forall|j: int| 0 <= j < i ==> self.bytes@[j] == other.bytes@[j],
            decreases 64 - i,
        {
            if self.bytes[i] != other.bytes[i] {
                proof {
                    lemma_value_order_is_bytewise(self.bytes@, other.bytes@);
                    lemma_value_order_is_bytewise(other.bytes@, self.bytes@);
                    if self.bytes@[i as int] < other.bytes@[i as int] {
                        assert(bytes_lt(self.bytes@, other.bytes@));
                    } else {
                        assert(bytes_lt(other.bytes@, self.bytes@));
                    }
                }
                return self.bytes[i] < other.bytes[i];
            }
            i += 1;
        }
        assert(self.bytes@ =~= other.bytes@);
        false
    }

    /// Whether this key comes before `other` or is the same key.
    pub fn le(&self, other: &Key) -> (r: bool)
        ensures
            r == (self@ <= other@),
    {
        !other.lt(self)
    }

    /// The key halfway between the two, rounded down.
    pub fn midpoint(&self, other: &Key) -> (m: Key)
        ensures
            m@ == (self@ + other@) / 2,
    {
        let ghost a = self.bytes@;
        let ghost b = other.bytes@;
        let mut sum = [0u8; 64];
        let mut carry: u16 = 0;
        let mut i: usize = 64;
        proof {
            assert(a.subrange(64, 64) =~= Seq::<u8>::empty());
            assert(b.subrange(64, 64) =~= Seq::<u8>::empty());
            assert(sum@.subrange(64, 64) =~= Seq::<u8>::empty());
        }
        while i > 0
            invariant
                i <= 64,
                carry <= 1,
                a == self.bytes@,
                b == other.bytes@,
                be_value(sum@.subrange(i as int, 64)) + carry * pow256((64 - i) as nat)
                    == be_value(a.subrange(i as int, 64)) + be_value(b.subrange(i as int, 64)),
            decreases i,
        {
            let ghost prev = sum@;
            let ghost prev_carry = carry;
            i -= 1;
            let t: u16 = self.bytes[i] as u16 + other.bytes[i] as u16 + carry;
            sum[i] = (t % 256) as u8;
            carry = t / 256;
            proof {
                let ii = i as int;
                lemma_be_value_head(sum@.subrange(ii, 64));
                lemma_be_value_head(a.subrange(ii, 64));
                lemma_be_value_head(b.subrange(ii, 64));
                assert(sum@.subrange(ii, 64).subrange(1, 64 - ii) =~= prev.subrange(ii + 1, 64));
                assert(a.subrange(ii, 64).subrange(1, 64 - ii) =~= a.subrange(ii + 1, 64));
                assert(b.subrange(ii, 64).subrange(1, 64 - ii) =~= b.subrange(ii + 1, 64));
                let p = pow256((63 - ii) as nat);
                assert(pow256((64 - ii) as nat) == 256 * p);
                let s0 = (t % 256) as nat;
                let c1 = (t / 256) as nat;
                assert(s0 + 256 * c1 == t);
                assert(s0 * p + c1 * (256 * p) == t as nat * p) by (nonlinear_arith)
                    requires
                        s0 + 256 * c1 == t,
                ;
                assert(t as nat * p == a[ii] as nat * p + b[ii] as nat * p + prev_carry as nat * p)
                    by (nonlinear_arith)
                    requires
                        t == a[ii] + b[ii] + prev_carry,
                ;
            }
        }
        let mut out = [0u8; 64];
        let mut rem: u16 = carry;
        let mut j: usize = 0;
        proof {
            assert(sum@.subrange(0, 64) =~= sum@);
            assert(a.subrange(0, 64) =~= a);
            assert(b.subrange(0, 64) =~= b);
            assert(out@.subrange(0, 0) =~= Seq::<u8>::empty());
            assert(sum@.subrange(0, 0) =~= Seq::<u8>::empty());
        }
        while j < 64
            invariant
                j <= 64,
                rem <= 1,
                carry <= 1,
                be_value(out@.subrange(0, j as int)) * 2 + rem == carry * pow256(j as nat)
                    + be_value(sum@.subrange(0, j as int)),
            decreases 64 - j,
        {
            let ghost prev = out@;
            let ghost prev_rem = rem;
            let cur: u16 = rem * 256 + sum[j] as u16;
            out[j] = (cur / 2) as u8;
            rem = cur % 2;
            proof {
                let jj = j as int;
                assert(out@.subrange(0, jj + 1).drop_last() =~= prev.subrange(0, jj));
                assert(sum@.subrange(0, jj + 1).drop_last() =~= sum@.subrange(0, jj));
                let p = pow256(jj as nat);
                assert(pow256((jj + 1) as nat) == 256 * p);
                let o = be_value(prev.subrange(0, jj));
                let s = be_value(sum@.subrange(0, jj));
                assert(o * 2 + prev_rem == carry * p + s);
                assert(be_value(out@.subrange(0, jj + 1)) == o * 256 + (cur / 2) as nat);
                assert(be_value(sum@.subrange(0, jj + 1)) == s * 256 + sum@[jj] as nat);
                assert((o * 2 + prev_rem) * 256 == (carry * p + s) * 256);
                assert((carry * p + s) * 256 == carry * (256 * p) + s * 256) by (nonlinear_arith);
            }
            j += 1;
        }
        proof {
            assert(out@.subrange(0, 64) =~= out@);
            assert(sum@.subrange(0, 64) =~= sum@);
        }
        Key { bytes: out }
    }

    /// The next key in order, where there is one.
    pub fn successor(&self) -> (r: Option<Key>)
        ensures
            r is Some <==> self@ + 1 < key_space(),
            r matches Some(k) ==> k@ == self@ + 1,
    {
        let ghost a = self.bytes@;
        let mut out = [0u8; 64];
        let mut carry: u16 = 1;
        let mut i: usize = 64;
        proof {
            assert(a.subrange(64, 64) =~= Seq::<u8>::empty());
            assert(out@.subrange(64, 64) =~= Seq::<u8>::empty());
        }
        while i > 0
            invariant
                i <= 64,
                carry <= 1,
                a == self.bytes@,
                be_value(out@.subrange(i as int, 64)) + carry * pow256((64 - i) as nat)
                    == be_value(a.subrange(i as int, 64)) + 1,
            decreases i,
        {
            let ghost prev = out@;
            let ghost prev_carry = carry;
            i -= 1;
            let t: u16 = self.bytes[i] as u16 + carry;
            out[i] = (t % 256) as u8;
            carry = t / 256;
            proof {
                let ii = i as int;
                lemma_be_value_head(out@.subrange(ii, 64));
                lemma_be_value_head(a.subrange(ii, 64));
                assert(out@.subrange(ii, 64).subrange(1, 64 - ii) =~= prev.subrange(ii + 1, 64));
                assert(a.subrange(ii, 64).subrange(1, 64 - ii) =~= a.subrange(ii + 1, 64));
                let p = pow256((63 - ii) as nat);
                assert(pow256((64 - ii) as nat) == 256 * p);
                let s0 = (t % 256) as nat;
                let c1 = (t / 256) as nat;
                assert(s0 + 256 * c1 == t);
                assert(s0 * p + c1 * (256 * p) == t as nat * p) by (nonlinear_arith)
                    requires
                        s0 + 256 * c1 == t,
                ;
                assert(t as nat * p == a[ii] as nat * p + prev_carry as nat * p)
                    by (nonlinear_arith)
                    requires
                        t == a[ii] + prev_carry,
                ;
            }
        }
        proof {
            assert(out@.subrange(0, 64) =~= out@);
            assert(a.subrange(0, 64) =~= a);
            lemma_be_value_bound(out@);
            lemma_be_value_bound(a);
        }
        if carry == 0 {
            Some(Key { bytes: out })
        } else {
            None
        }
    }

    /// The key before this one in order, where there is one.
    pub fn predecessor(&self) -> (r: Option<Key>)
        ensures
            r is Some <==> self@ > 0,
            r matches Some(k) ==> k@ + 1 == self@,
    {
        let ghost a = self.bytes@;
        let mut out = [0u8; 64];
        let mut borrow: u16 = 1;
        let mut i: usize = 64;
        proof {
            assert(a.subrange(64, 64) =~= Seq::<u8>::empty());
            assert(out@.subrange(64, 64) =~= Seq::<u8>::empty());
        }
        while i > 0
            invariant
                i <= 64,
                borrow <= 1,
                a == self.bytes@,
                be_value(out@.subrange(i as int, 64)) + 1 == be_value(a.subrange(i as int, 64))
                    + borrow * pow256((64 - i) as nat),
            decreases i,
        {
            let ghost prev = out@;
            let ghost prev_borrow = borrow;
            i -= 1;
            let t: u16 = self.bytes[i] as u16 + 256 - borrow;
            out[i] = (t % 256) as u8;
            borrow = 1 - t / 256;
            proof {
                let ii = i as int;
                lemma_be_value_head(out@.subrange(ii, 64));
                lemma_be_value_head(a.subrange(ii, 64));
                assert(out@.subrange(ii, 64).subrange(1, 64 - ii) =~= prev.subrange(ii + 1, 64));
                assert(a.subrange(ii, 64).subrange(1, 64 - ii) =~= a.subrange(ii + 1, 64));
                let p = pow256((63 - ii) as nat);
                assert(pow256((64 - ii) as nat) == 256 * p);
                let s0 = (t % 256) as nat;
                let b0 = prev_borrow as nat;
                let b1 = borrow as nat;
                let d = a[ii] as nat;
                assert(s0 + b0 == d + 256 * b1);
                assert(s0 * p + b0 * p == d * p + b1 * (256 * p)) by (nonlinear_arith)
                    requires
                        s0 + b0 == d + 256 * b1,
                ;
            }
        }
        proof {
            assert(out@.subrange(0, 64) =~= out@);
            assert(a.subrange(0, 64) =~= a);
            lemma_be_value_bound(out@);
            lemma_be_value_bound(a);
        }
        if borrow == 0 {
            Some(Key { bytes: out })
        } else {
            None
        }
    }

    /// Whether the key's number is odd.
    pub fn is_odd(&self) -> (r: bool)
        ensures
            r == (self@ % 2 == 1),
    {
        proof {
            assert(self.bytes@.len() == 64);
        }
        self.bytes[63] % 2 == 1
    }
}

proof fn lemma_all_zero(s: Seq<u8>, n: int)
    requires
        0 <= n <= s.len(),
        forall|i: int| 0 <= i < n ==> s[i] == 0u8,
    ensures
        be_value(s.subrange(0, n)) == 0,
    decreases n,
{
    if n > 0 {
        lemma_all_zero(s, n - 1);
        assert(s.subrange(0, n).drop_last() =~= s.subrange(0, n - 1));
    }
}

proof fn lemma_all_ones(s: Seq<u8>, n: int)
    requires
        0 <= n <= s.len(),
        forall|i: int| 0 <= i < n ==> s[i] == 0xffu8,
    ensures
        be_value(s.subrange(0, n)) == pow256(n as nat) - 1,
    decreases n,
{
    if n > 0 {
        lemma_all_ones(s, n - 1);
        assert(s.subrange(0, n).drop_last() =~= s.subrange(0, n - 1));
    }
}

} // verus!
