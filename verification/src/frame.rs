//! Length framing: every message travels behind the number of its bytes,
//! written in four bytes, most significant first.

use crate::key::be_value;
use vstd::prelude::*;
use vstd::slice::slice_subrange;

verus! {

/// Number of bytes of the length that goes before a message.
pub const PREFIX_SIZE: usize = 4;

/// Largest message that can be framed, in bytes.
pub const MAX_PAYLOAD: usize = 0xffff_ffff;

/// The four bytes that spell `n`, most significant first.
pub open spec fn spec_prefix(n: nat) -> Seq<u8> {
    seq![
        (n / 0x100_0000 % 256) as u8,
        (n / 0x1_0000 % 256) as u8,
        (n / 0x100 % 256) as u8,
        (n % 256) as u8,
    ]
}

/// A message behind its length.
pub open spec fn spec_frame(payload: Seq<u8>) -> Seq<u8> {
    spec_prefix(payload.len()) + payload
}

/// What the start of a stream of bytes holds.
#[derive(Clone, Debug, PartialEq, Eq)]
pub enum Unframed {
    /// Not yet a whole frame: more bytes are needed.
    Incomplete,
    /// A frame that announces more bytes than a message may have: the
    /// stream is broken.
    Oversized,
    /// A whole frame, which took up the first `consumed` bytes.
    Frame { payload: Vec<u8>, consumed: usize },
}

/// What the start of `buf` holds, where no message has more than `limit`
/// bytes.
pub open spec fn spec_unframe(buf: Seq<u8>, limit: usize) -> (Option<Seq<u8>>, bool) {
    if buf.len() < 4 {
        (None, false)
    } else {
        let n = be_value(buf.subrange(0, 4));
        if n > limit {
            (None, true)
        } else if buf.len() < 4 + n {
            (None, false)
        } else {
            (Some(buf.subrange(4, (4 + n) as int)), false)
        }
    }
}

/// The four bytes of a length spell that length.
pub proof fn lemma_prefix_value(n: nat)
    requires
        n <= 0xffff_ffff,
    ensures
        spec_prefix(n).len() == 4,
        be_value(spec_prefix(n)) == n,
{
    let p = spec_prefix(n);
    lemma_four_bytes(p);
}

proof fn lemma_four_bytes(p: Seq<u8>)
    requires
        p.len() == 4,
    ensures
        be_value(p) == p[0] * 0x100_0000 + p[1] * 0x1_0000 + p[2] * 0x100 + p[3],
{
    let three = p.drop_last();
    let two = three.drop_last();
    let one = two.drop_last();
    assert(one.drop_last().len() == 0);
    assert(be_value(one.drop_last()) == 0);
    assert(be_value(one) == p[0]);
    assert(be_value(two) == be_value(one) * 256 + p[1]);
    assert(be_value(three) == be_value(two) * 256 + p[2]);
    assert(be_value(p) == be_value(three) * 256 + p[3]);
}

/// Framing can be undone. A stream that starts with the frame of a message
/// no larger than the limit yields that message and no byte of what
/// follows.
pub proof fn lemma_frame_round_trip(payload: Seq<u8>, rest: Seq<u8>, limit: usize)
    requires
        payload.len() <= limit,
        payload.len() <= 0xffff_ffff,
    ensures
        spec_unframe(spec_frame(payload) + rest, limit) == (Some(payload), false),
{
    let buf = spec_frame(payload) + rest;
    lemma_prefix_value(payload.len());
    assert(buf.subrange(0, 4) =~= spec_prefix(payload.len()));
    assert(buf.subrange(4, (4 + payload.len()) as int) =~= payload);
}

/// Puts `payload` behind its length. A message of more than `MAX_PAYLOAD`
/// bytes cannot be framed.
pub fn frame(payload: &[u8]) -> (r: Option<Vec<u8>>)
    ensures
        r is Some <==> payload@.len() <= MAX_PAYLOAD,
        r matches Some(out) ==> out@ == spec_frame(payload@),
{
    let n = payload.len();
    if n > MAX_PAYLOAD {
        return None;
    }
    let mut out: Vec<u8> = Vec::new();
    out.push((n / 0x100_0000 % 256) as u8);
    out.push((n / 0x1_0000 % 256) as u8);
    out.push((n / 0x100 % 256) as u8);
    out.push((n % 256) as u8);
    assert(out@ =~= spec_prefix(n as nat));
    let mut i: usize = 0;
    while i < n
        invariant
            i <= n,
            n == payload@.len(),
            out@ == spec_prefix(n as nat) + payload@.subrange(0, i as int),
        decreases n - i,
    {
        out.push(payload[i]);
        assert(out@ =~= spec_prefix(n as nat) + payload@.subrange(0, i + 1));
        i += 1;
    }
    assert(payload@.subrange(0, n as int) =~= payload@);
    Some(out)
}

/// Takes the first frame off `buf`, where no message has more than `limit`
/// bytes.
pub fn unframe(buf: &[u8], limit: usize) -> (r: Unframed)
    ensures
        match r {
            Unframed::Incomplete => spec_unframe(buf@, limit) == (None::<Seq<u8>>, false),
            Unframed::Oversized => spec_unframe(buf@, limit) == (None::<Seq<u8>>, true),
            Unframed::Frame { payload, consumed } => spec_unframe(buf@, limit) == (
                Some(payload@),
                false,
            ) && consumed == 4 + payload@.len(),
        },
{
    if buf.len() < PREFIX_SIZE {
        return Unframed::Incomplete;
    }
    proof {
        lemma_four_bytes(buf@.subrange(0, 4));
    }
    let n: u64 = buf[0] as u64 * 0x100_0000 + buf[1] as u64 * 0x1_0000 + buf[2] as u64 * 0x100
        + buf[3] as u64;
    if n > limit as u64 {
        return Unframed::Oversized;
    }
    let n: usize = n as usize;
    if buf.len() - PREFIX_SIZE < n {
        return Unframed::Incomplete;
    }
    let body = slice_subrange(buf, PREFIX_SIZE, PREFIX_SIZE + n);
    let payload = vstd::slice::slice_to_vec(body);
    Unframed::Frame { payload, consumed: PREFIX_SIZE + n }
}

} // verus!
