//! A counter-driven byte generator: each block of up to 64 bytes is the
//! SHA-512 digest of the next value of a 128-bit counter.
//!
//! The generator is meant for nonces in tests; it is only as unpredictable
//! as the value it is started with.

use sha2::{Digest, Sha512};
use vstd::bytes::spec_u128_to_le_bytes;
use vstd::prelude::*;

verus! {

/// Number of bytes that one value of the counter yields.
pub const BLOCK_SIZE: usize = 64;

/// The SHA-512 digest of `data`.
pub uninterp spec fn sha512_digest(data: Seq<u8>) -> Seq<u8>;

/// The 16 bytes of `x`, least significant first if `little`, most
/// significant first otherwise.
pub open spec fn encoding(x: u128, little: bool) -> Seq<u8> {
    if little {
        spec_u128_to_le_bytes(x)
    } else {
        spec_u128_to_le_bytes(x).reverse()
    }
}

/// The counter after `steps` increments, wrapping at `2^128`.
pub open spec fn counter_after(start: u128, steps: nat) -> u128
    decreases steps,
{
    if steps == 0 {
        start
    } else {
        counter_after(start, (steps - 1) as nat).wrapping_add(1)
    }
}

/// Number of counter values that `len` bytes use up.
pub open spec fn blocks_for(len: nat) -> nat {
    (len + 63) / 64
}

/// Whether the bytes of `out` from place `64 * j` on, up to 64 of them, are
/// the first bytes of the digest of the counter value `c`, its bytes taken
/// least significant first if `little`, most significant first otherwise.
pub open spec fn block_from(out: Seq<u8>, j: int, c: u128, little: bool) -> bool {
    forall|k: int|
        0 <= k < 64 && 64 * j + k < out.len() ==> #[trigger] out[64 * j + k] == sha512_digest(
            encoding(c, little),
        )[k]
}

/// Whether the bytes of `out` from place `64 * j` on, up to 64 of them, are
/// the first bytes of the digest of the counter value `c` in one of its two
/// byte orders.
pub open spec fn block_drawn(out: Seq<u8>, j: int, c: u128) -> bool {
    block_from(out, j, c, true) || block_from(out, j, c, false)
}

/// Calls `Sha512::digest` of the `sha2` crate: the result is the 64-byte
/// SHA-512 digest of `data`, a function of `data` alone.
#[verifier::external_body]
fn sha512(data: &[u8]) -> (out: Vec<u8>)
    ensures
        out@ == sha512_digest(data@),
        out@.len() == 64,
{
    Sha512::digest(data).as_slice().to_vec()
}

/// Calls `u128::to_ne_bytes`: the result holds the 16 bytes of `x` in the
/// byte order of the machine, which is one of the two there are.
#[verifier::external_body]
fn native_bytes(x: u128) -> (out: [u8; 16])
    ensures
        out@ == encoding(x, true) || out@ == encoding(x, false),
{
    x.to_ne_bytes()
}

/// The state of the generator: the counter value that was used last.
#[derive(Clone, Copy, Debug)]
pub struct RandomSource {
    counter: u128,
}

impl View for RandomSource {
    type V = u128;

    closed spec fn view(&self) -> u128 {
        self.counter
    }
}

impl RandomSource {
    /// A generator that has not been started: its counter is zero.
    pub fn new() -> (r: RandomSource)
        ensures
            r@ == 0,
    {
        RandomSource { counter: 0 }
    }

    /// The counter value that was used last.
    pub fn counter(&self) -> (c: u128)
        ensures
            c == self@,
    {
        self.counter
    }

    /// The counter value from which the next bytes are drawn: `seed` for a
    /// generator that has not been started, the last value used otherwise.
    pub open spec fn start(&self, seed: u128) -> u128 {
        if self@ == 0 {
            seed
        } else {
            self@
        }
    }

    /// Overwrites every byte of `buf`. A generator whose counter is zero
    /// starts from `seed`. Each block of 64 bytes, and the shorter block
    /// that may end the buffer, takes the next counter value and holds the
    /// first bytes of the digest of that value.
    pub fn get_random_bytes(&mut self, seed: u128, buf: &mut Vec<u8>)
        ensures
            final(buf)@.len() == old(buf)@.len(),
            final(self)@ == counter_after(old(self).start(seed), blocks_for(old(buf)@.len())),
            forall|j: int|
                0 <= j < blocks_for(old(buf)@.len()) ==> block_drawn(
                    final(buf)@,
                    j,
                    #[trigger] counter_after(old(self).start(seed), (j + 1) as nat),
                ),
    {
        let len = buf.len();
        let ghost start = self.start(seed);
        let mut ctr: u128 = self.counter;
        if ctr == 0 {
            ctr = seed;
        }
        let mut filled: usize = 0;
        let ghost mut blocks: nat = 0;
        while filled < len
            invariant
                filled <= len,
                len == buf@.len(),
                len == old(buf)@.len(),
                start == old(self).start(seed),
                filled == len || filled == 64 * blocks,
                filled == len ==> blocks == blocks_for(len as nat),
                ctr == counter_after(start, blocks),
                forall|j: int|
                    0 <= j < blocks ==> block_drawn(
                        buf@,
                        j,
                        #[trigger] counter_after(start, (j + 1) as nat),
                    ),
            decreases len - filled,
        {
            let room: usize = len - filled;
            let take: usize = if room < BLOCK_SIZE {
                room
            } else {
                BLOCK_SIZE
            };
            ctr = ctr.wrapping_add(1);
            let bytes = native_bytes(ctr);
            let digest = sha512(bytes.as_slice());
            let ghost little = bytes@ == encoding(ctr, true);
            let ghost base = buf@;
            let mut k: usize = 0;
            while k < take
                invariant
                    k <= take,
                    take <= 64,
                    filled + take <= len,
                    len == buf@.len(),
                    base.len() == len,
                    digest@.len() == 64,
                    forall|i: int| 0 <= i < filled ==> buf@[i] == base[i],
                    forall|i: int| 0 <= i < k ==> buf@[filled + i] == digest@[i],
                decreases take - k,
            {
                buf.set(filled + k, digest[k]);
                k += 1;
            }
            proof {
                let j = blocks as int;
                assert(counter_after(start, (j + 1) as nat) == ctr);
                assert(digest@ == sha512_digest(encoding(ctr, little)));
                assert(block_from(buf@, j, ctr, little)) by {
                    assert forall|i: int| 0 <= i < 64 && 64 * j + i < buf@.len() implies #[trigger] buf@[64
                        * j + i] == sha512_digest(encoding(ctr, little))[i] by {
                        assert(i < take);
                        assert(buf@[filled + i] == digest@[i]);
                    }
                }
                assert forall|b: int| 0 <= b < blocks implies block_drawn(
                    buf@,
                    b,
                    #[trigger] counter_after(start, (b + 1) as nat),
                ) by {
                    let c = counter_after(start, (b + 1) as nat);
                    assert(block_drawn(base, b, c));
                    let lit = block_from(base, b, c, true);
                    assert(block_from(base, b, c, lit));
                    assert forall|i: int| 0 <= i < 64 && 64 * b + i < buf@.len() implies #[trigger] buf@[64
                        * b + i] == sha512_digest(encoding(c, lit))[i] by {
                        assert(64 * b + i < filled);
                        assert(buf@[64 * b + i] == base[64 * b + i]);
                    }
                    assert(block_from(buf@, b, c, lit));
                }
                blocks = blocks + 1;
            }
            filled = filled + take;
        }
        self.counter = ctr;
    }
}

} // verus!
