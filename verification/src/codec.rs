//! Length-prefixed binary codec for requests and responses.
//!
//! Every message is a tag byte followed by its fields in declaration
//! order: byte strings are prefixed by their little-endian 32-bit length,
//! integers are fixed-width little-endian, identifiers are 16 raw bytes.
//! A message longer than the fixed bound is refused on encode; decoding a
//! truncated buffer reports that more bytes are needed, which lets a
//! connection decode pipelined requests incrementally.

use vstd::prelude::*;
use vstd::assert_seqs_equal;
use crate::msg::{MsgId, ClientMessage, ServerMessage, ReqModel, RespModel};

verus! {

/// Upper bound on the encoded size of a request, framing included.
pub const MAX_CLIENT_MESSAGE_LEN: u64 = 2048;

/// Upper bound on the encoded size of a response, framing included.
pub const MAX_SERVER_MESSAGE_LEN: u64 = 2048;

/// Encoding failed: the message exceeds the fixed size bound.
#[derive(Clone, Copy, Debug, PartialEq, Eq, Structural)]
pub enum EncodingError {
    SizeLimit,
}

/// Decoding did not produce a message.
#[derive(Clone, Copy, Debug, PartialEq, Eq, Structural)]
pub enum DecodingError {
    /// The buffer holds a prefix of a message; wait for more bytes.
    Incomplete,
    /// The buffer cannot be a prefix of any message.
    Invalid,
}

/// Outcome of decoding at the head of a byte sequence: a value and the
/// position just past it, a request for more bytes, or a hard error.
pub enum Decoded<M> {
    Done(M, int),
    More,
    Bad,
}

/// The four little-endian bytes of a 32-bit integer.
pub open spec fn le4(x: u32) -> Seq<u8> {
    seq![
        (x & 0xff) as u8,
        ((x >> 8) & 0xff) as u8,
        ((x >> 16) & 0xff) as u8,
        ((x >> 24) & 0xff) as u8,
    ]
}

/// The eight little-endian bytes of a 64-bit integer.
pub open spec fn le8(x: u64) -> Seq<u8> {
    seq![
        (x & 0xff) as u8,
        ((x >> 8) & 0xff) as u8,
        ((x >> 16) & 0xff) as u8,
        ((x >> 24) & 0xff) as u8,
        ((x >> 32) & 0xff) as u8,
        ((x >> 40) & 0xff) as u8,
        ((x >> 48) & 0xff) as u8,
        ((x >> 56) & 0xff) as u8,
    ]
}

/// The 32-bit integer read from four little-endian bytes.
pub open spec fn from_le4(s: Seq<u8>) -> u32
    recommends
        s.len() == 4,
{
    (s[0] as u32) | ((s[1] as u32) << 8) | ((s[2] as u32) << 16) | ((s[3] as u32) << 24)
}

/// The 64-bit integer read from eight little-endian bytes.
pub open spec fn from_le8(s: Seq<u8>) -> u64
    recommends
        s.len() == 8,
{
    (s[0] as u64) | ((s[1] as u64) << 8) | ((s[2] as u64) << 16) | ((s[3] as u64) << 24)
        | ((s[4] as u64) << 32) | ((s[5] as u64) << 40) | ((s[6] as u64) << 48)
        | ((s[7] as u64) << 56)
}

pub proof fn lemma_le4_roundtrip(x: u32)
    ensures
        from_le4(le4(x)) == x,
{
    assert((((x & 0xff) as u8 as u32) | (((x >> 8) & 0xff) as u8 as u32) << 8
        | (((x >> 16) & 0xff) as u8 as u32) << 16 | (((x >> 24) & 0xff) as u8 as u32) << 24)
        == x) by (bit_vector);
}

pub proof fn lemma_le8_roundtrip(x: u64)
    ensures
        from_le8(le8(x)) == x,
{
    assert((((x & 0xff) as u8 as u64) | (((x >> 8) & 0xff) as u8 as u64) << 8
        | (((x >> 16) & 0xff) as u8 as u64) << 16 | (((x >> 24) & 0xff) as u8 as u64) << 24
        | (((x >> 32) & 0xff) as u8 as u64) << 32 | (((x >> 40) & 0xff) as u8 as u64) << 40
        | (((x >> 48) & 0xff) as u8 as u64) << 48 | (((x >> 56) & 0xff) as u8 as u64) << 56)
        == x) by (bit_vector);
}

/// A byte string on the wire: its length, then its bytes.
pub open spec fn enc_blob(s: Seq<u8>) -> Seq<u8> {
    le4(s.len() as u32) + s
}

/// An identifier on the wire: low word, then high word.
pub open spec fn enc_id(id: MsgId) -> Seq<u8> {
    le8(id.lo) + le8(id.hi)
}

/// The encoding of a request.
pub open spec fn enc_req(m: ReqModel) -> Seq<u8> {
    match m {
        ReqModel::CreateQueue(n) => seq![0u8] + enc_blob(n),
        ReqModel::DeleteQueue(n) => seq![1u8] + enc_blob(n),
        ReqModel::Enqueue(n, d) => seq![2u8] + enc_blob(n) + enc_blob(d),
        ReqModel::Read(n, t) => seq![3u8] + enc_blob(n) + le8(t),
        ReqModel::Confirm(id) => seq![4u8] + enc_id(id),
    }
}

/// The encoding of a response.
pub open spec fn enc_resp(m: RespModel) -> Seq<u8> {
    match m {
        RespModel::QueueCreated => seq![0u8],
        RespModel::QueueDeleted => seq![1u8],
        RespModel::ObjectQueued(id) => seq![2u8] + enc_id(id),
        RespModel::Read(id, d) => seq![3u8] + enc_id(id) + enc_blob(d),
        RespModel::Confirmed => seq![4u8],
        RespModel::Requeued => seq![5u8],
        RespModel::Full(id, d) => seq![6u8] + enc_id(id) + enc_blob(d),
        RespModel::Empty => seq![7u8],
        RespModel::NoSuchEntity => seq![8u8],
    }
}

/// Whether each length field of a request fits its 32-bit prefix, so that
/// the encoding can be decoded back.
pub open spec fn req_fits(m: ReqModel) -> bool {
    match m {
        ReqModel::CreateQueue(n) => n.len() < 0x1_0000_0000,
        ReqModel::DeleteQueue(n) => n.len() < 0x1_0000_0000,
        ReqModel::Enqueue(n, d) => n.len() < 0x1_0000_0000 && d.len() < 0x1_0000_0000,
        ReqModel::Read(n, t) => n.len() < 0x1_0000_0000,
        ReqModel::Confirm(id) => true,
    }
}

/// Whether each length field of a response fits its 32-bit prefix.
pub open spec fn resp_fits(m: RespModel) -> bool {
    match m {
        RespModel::Read(id, d) => d.len() < 0x1_0000_0000,
        RespModel::Full(id, d) => d.len() < 0x1_0000_0000,
        _ => true,
    }
}

/// Decode a length-prefixed byte string starting at position `i`.
#[verifier::opaque]
pub open spec fn dec_blob(s: Seq<u8>, i: int) -> Decoded<Seq<u8>>
    recommends
        0 <= i <= s.len(),
{
    if s.len() < i + 4 {
        Decoded::More
    } else {
        let n = from_le4(s.subrange(i, i + 4)) as int;
        if s.len() < i + 4 + n {
            Decoded::More
        } else {
            Decoded::Done(s.subrange(i + 4, i + 4 + n), i + 4 + n)
        }
    }
}

/// Decode a 64-bit integer starting at position `i`.
#[verifier::opaque]
pub open spec fn dec_u64(s: Seq<u8>, i: int) -> Decoded<u64>
    recommends
        0 <= i <= s.len(),
{
    if s.len() < i + 8 {
        Decoded::More
    } else {
        Decoded::Done(from_le8(s.subrange(i, i + 8)), i + 8)
    }
}

/// Decode an identifier starting at position `i`.
#[verifier::opaque]
pub open spec fn dec_id(s: Seq<u8>, i: int) -> Decoded<MsgId>
    recommends
        0 <= i <= s.len(),
{
    if s.len() < i + 16 {
        Decoded::More
    } else {
        Decoded::Done(
            MsgId {
                lo: from_le8(s.subrange(i, i + 8)),
                hi: from_le8(s.subrange(i + 8, i + 16)),
            },
            i + 16,
        )
    }
}

/// Decode one request from the head of `s`.
#[verifier::opaque]
pub open spec fn dec_req(s: Seq<u8>) -> Decoded<ReqModel> {
    if s.len() < 1 {
        Decoded::More
    } else {
        let tag = s[0];
        if tag == 0 {
            match dec_blob(s, 1) {
                Decoded::Done(n, e) => Decoded::Done(ReqModel::CreateQueue(n), e),
                Decoded::More => Decoded::More,
                Decoded::Bad => Decoded::Bad,
            }
        } else if tag == 1 {
            match dec_blob(s, 1) {
                Decoded::Done(n, e) => Decoded::Done(ReqModel::DeleteQueue(n), e),
                Decoded::More => Decoded::More,
                Decoded::Bad => Decoded::Bad,
            }
        } else if tag == 2 {
            match dec_blob(s, 1) {
                Decoded::Done(n, e1) => match dec_blob(s, e1) {
                    Decoded::Done(d, e2) => Decoded::Done(ReqModel::Enqueue(n, d), e2),
                    Decoded::More => Decoded::More,
                    Decoded::Bad => Decoded::Bad,
                },
                Decoded::More => Decoded::More,
                Decoded::Bad => Decoded::Bad,
            }
        } else if tag == 3 {
            match dec_blob(s, 1) {
                Decoded::Done(n, e1) => match dec_u64(s, e1) {
                    Decoded::Done(t, e2) => Decoded::Done(ReqModel::Read(n, t), e2),
                    Decoded::More => Decoded::More,
                    Decoded::Bad => Decoded::Bad,
                },
                Decoded::More => Decoded::More,
                Decoded::Bad => Decoded::Bad,
            }
        } else if tag == 4 {
            match dec_id(s, 1) {
                Decoded::Done(id, e) => Decoded::Done(ReqModel::Confirm(id), e),
                Decoded::More => Decoded::More,
                Decoded::Bad => Decoded::Bad,
            }
        } else {
            Decoded::Bad
        }
    }
}

/// Decode one response from the head of `s`.
#[verifier::opaque]
pub open spec fn dec_resp(s: Seq<u8>) -> Decoded<RespModel> {
    if s.len() < 1 {
        Decoded::More
    } else {
        let tag = s[0];
        if tag == 0 {
            Decoded::Done(RespModel::QueueCreated, 1)
        } else if tag == 1 {
            Decoded::Done(RespModel::QueueDeleted, 1)
        } else if tag == 2 {
            match dec_id(s, 1) {
                Decoded::Done(id, e) => Decoded::Done(RespModel::ObjectQueued(id), e),
                Decoded::More => Decoded::More,
                Decoded::Bad => Decoded::Bad,
            }
        } else if tag == 3 {
            match dec_id(s, 1) {
                Decoded::Done(id, e1) => match dec_blob(s, e1) {
                    Decoded::Done(d, e2) => Decoded::Done(RespModel::Read(id, d), e2),
                    Decoded::More => Decoded::More,
                    Decoded::Bad => Decoded::Bad,
                },
                Decoded::More => Decoded::More,
                Decoded::Bad => Decoded::Bad,
            }
        } else if tag == 4 {
            Decoded::Done(RespModel::Confirmed, 1)
        } else if tag == 5 {
            Decoded::Done(RespModel::Requeued, 1)
        } else if tag == 6 {
            match dec_id(s, 1) {
                Decoded::Done(id, e1) => match dec_blob(s, e1) {
                    Decoded::Done(d, e2) => Decoded::Done(RespModel::Full(id, d), e2),
                    Decoded::More => Decoded::More,
                    Decoded::Bad => Decoded::Bad,
                },
                Decoded::More => Decoded::More,
                Decoded::Bad => Decoded::Bad,
            }
        } else if tag == 7 {
            Decoded::Done(RespModel::Empty, 1)
        } else if tag == 8 {
            Decoded::Done(RespModel::NoSuchEntity, 1)
        } else {
            Decoded::Bad
        }
    }
}

proof fn lemma_dec_blob_of_enc(pre: Seq<u8>, b: Seq<u8>, rest: Seq<u8>)
    requires
        b.len() < 0x1_0000_0000,
    ensures
        dec_blob(pre + enc_blob(b) + rest, pre.len() as int) == Decoded::Done(
            b,
            pre.len() + 4 + b.len() as int,
        ),
{
    reveal(dec_blob);
    let s = pre + enc_blob(b) + rest;
    let i = pre.len() as int;
    assert(s.len() == pre.len() + 4 + b.len() + rest.len());
    assert_seqs_equal!(s.subrange(i, i + 4) == le4(b.len() as u32));
    lemma_le4_roundtrip(b.len() as u32);
    assert(from_le4(s.subrange(i, i + 4)) as int == b.len());
    assert_seqs_equal!(s.subrange(i + 4, i + 4 + b.len()) == b);
}

proof fn lemma_dec_u64_of_enc(pre: Seq<u8>, t: u64, rest: Seq<u8>)
    ensures
        dec_u64(pre + le8(t) + rest, pre.len() as int) == Decoded::Done(t, pre.len() + 8 as int),
{
    reveal(dec_u64);
    let s = pre + le8(t) + rest;
    let i = pre.len() as int;
    assert_seqs_equal!(s.subrange(i, i + 8) == le8(t));
    lemma_le8_roundtrip(t);
}

proof fn lemma_dec_id_of_enc(pre: Seq<u8>, id: MsgId, rest: Seq<u8>)
    ensures
        dec_id(pre + enc_id(id) + rest, pre.len() as int) == Decoded::Done(id, pre.len() + 16 as int),
{
    reveal(dec_id);
    let s = pre + enc_id(id) + rest;
    let i = pre.len() as int;
    assert_seqs_equal!(s.subrange(i, i + 8) == le8(id.lo));
    assert_seqs_equal!(s.subrange(i + 8, i + 16) == le8(id.hi));
    lemma_le8_roundtrip(id.lo);
    lemma_le8_roundtrip(id.hi);
}

/// Round-trip: decoding the encoding of a request, whatever bytes follow
/// it, yields that request back and consumes exactly its encoding.
#[verifier::rlimit(100)]
proof fn lemma_req_rt_create(n: Seq<u8>, rest: Seq<u8>)
    requires
        n.len() < 0x1_0000_0000,
    ensures
        dec_req(enc_req(ReqModel::CreateQueue(n)) + rest) == Decoded::Done(
            ReqModel::CreateQueue(n),
            enc_req(ReqModel::CreateQueue(n)).len() as int,
        ),
{
    reveal(dec_req);
    let s = enc_req(ReqModel::CreateQueue(n)) + rest;
    lemma_dec_blob_of_enc(seq![0u8], n, rest);
    assert(s[0] == 0u8);
}

#[verifier::rlimit(100)]
proof fn lemma_req_rt_delete(n: Seq<u8>, rest: Seq<u8>)
    requires
        n.len() < 0x1_0000_0000,
    ensures
        dec_req(enc_req(ReqModel::DeleteQueue(n)) + rest) == Decoded::Done(
            ReqModel::DeleteQueue(n),
            enc_req(ReqModel::DeleteQueue(n)).len() as int,
        ),
{
    reveal(dec_req);
    let s = enc_req(ReqModel::DeleteQueue(n)) + rest;
    lemma_dec_blob_of_enc(seq![1u8], n, rest);
    assert(s[0] == 1u8);
}

#[verifier::rlimit(100)]
proof fn lemma_req_rt_enqueue(n: Seq<u8>, d: Seq<u8>, rest: Seq<u8>)
    requires
        n.len() < 0x1_0000_0000,
        d.len() < 0x1_0000_0000,
    ensures
        dec_req(enc_req(ReqModel::Enqueue(n, d)) + rest) == Decoded::Done(
            ReqModel::Enqueue(n, d),
            enc_req(ReqModel::Enqueue(n, d)).len() as int,
        ),
{
    reveal(dec_req);
    let s = enc_req(ReqModel::Enqueue(n, d)) + rest;
    assert_seqs_equal!(s == seq![2u8] + enc_blob(n) + (enc_blob(d) + rest));
    lemma_dec_blob_of_enc(seq![2u8], n, enc_blob(d) + rest);
    assert(dec_blob(s, 1) == Decoded::Done(n, 5 + n.len() as int));
    lemma_dec_blob_of_enc(seq![2u8] + enc_blob(n), d, rest);
    assert(dec_blob(s, 5 + n.len() as int) == Decoded::Done(d, 9 + n.len() + d.len() as int));
    assert(s[0] == 2u8);
}

#[verifier::rlimit(100)]
proof fn lemma_req_rt_read(n: Seq<u8>, t: u64, rest: Seq<u8>)
    requires
        n.len() < 0x1_0000_0000,
    ensures
        dec_req(enc_req(ReqModel::Read(n, t)) + rest) == Decoded::Done(
            ReqModel::Read(n, t),
            enc_req(ReqModel::Read(n, t)).len() as int,
        ),
{
    reveal(dec_req);
    let s = enc_req(ReqModel::Read(n, t)) + rest;
    assert_seqs_equal!(s == seq![3u8] + enc_blob(n) + (le8(t) + rest));
    lemma_dec_blob_of_enc(seq![3u8], n, le8(t) + rest);
    assert(dec_blob(s, 1) == Decoded::Done(n, 5 + n.len() as int));
    lemma_dec_u64_of_enc(seq![3u8] + enc_blob(n), t, rest);
    assert(dec_u64(s, 5 + n.len() as int) == Decoded::Done(t, 13 + n.len() as int));
    assert(s[0] == 3u8);
}

#[verifier::rlimit(100)]
proof fn lemma_req_rt_confirm(id: MsgId, rest: Seq<u8>)
    ensures
        dec_req(enc_req(ReqModel::Confirm(id)) + rest) == Decoded::Done(
            ReqModel::Confirm(id),
            enc_req(ReqModel::Confirm(id)).len() as int,
        ),
{
    reveal(dec_req);
    let s = enc_req(ReqModel::Confirm(id)) + rest;
    lemma_dec_id_of_enc(seq![4u8], id, rest);
    assert(s[0] == 4u8);
}

/// Round-trip: decoding the encoding of a request, whatever bytes follow
/// it, yields that request back and consumes exactly its encoding.
pub proof fn lemma_req_roundtrip(m: ReqModel, rest: Seq<u8>)
    requires
        req_fits(m),
    ensures
        dec_req(enc_req(m) + rest) == Decoded::Done(m, enc_req(m).len() as int),
{
    match m {
        ReqModel::CreateQueue(n) => lemma_req_rt_create(n, rest),
        ReqModel::DeleteQueue(n) => lemma_req_rt_delete(n, rest),
        ReqModel::Enqueue(n, d) => lemma_req_rt_enqueue(n, d, rest),
        ReqModel::Read(n, t) => lemma_req_rt_read(n, t, rest),
        ReqModel::Confirm(id) => lemma_req_rt_confirm(id, rest),
    }
}

/// Prove round-trips for responses with an identifier and a payload.
#[verifier::rlimit(100)]
proof fn lemma_resp_rt_read(id: MsgId, d: Seq<u8>, rest: Seq<u8>)
    requires
        d.len() < 0x1_0000_0000,
    ensures
        dec_resp(enc_resp(RespModel::Read(id, d)) + rest) == Decoded::Done(
            RespModel::Read(id, d),
            enc_resp(RespModel::Read(id, d)).len() as int,
        ),
{
    reveal(dec_resp);
    let s = enc_resp(RespModel::Read(id, d)) + rest;
    assert_seqs_equal!(s == seq![3u8] + enc_id(id) + (enc_blob(d) + rest));
    lemma_dec_id_of_enc(seq![3u8], id, enc_blob(d) + rest);
    assert(dec_id(s, 1) == Decoded::Done(id, 17 as int));
    lemma_dec_blob_of_enc(seq![3u8] + enc_id(id), d, rest);
    assert(dec_blob(s, 17 as int) == Decoded::Done(d, 21 + d.len() as int));
    assert(s[0] == 3u8);
}

#[verifier::rlimit(100)]
proof fn lemma_resp_rt_full(id: MsgId, d: Seq<u8>, rest: Seq<u8>)
    requires
        d.len() < 0x1_0000_0000,
    ensures
        dec_resp(enc_resp(RespModel::Full(id, d)) + rest) == Decoded::Done(
            RespModel::Full(id, d),
            enc_resp(RespModel::Full(id, d)).len() as int,
        ),
{
    reveal(dec_resp);
    let s = enc_resp(RespModel::Full(id, d)) + rest;
    assert_seqs_equal!(s == seq![6u8] + enc_id(id) + (enc_blob(d) + rest));
    lemma_dec_id_of_enc(seq![6u8], id, enc_blob(d) + rest);
    assert(dec_id(s, 1) == Decoded::Done(id, 17 as int));
    lemma_dec_blob_of_enc(seq![6u8] + enc_id(id), d, rest);
    assert(dec_blob(s, 17 as int) == Decoded::Done(d, 21 + d.len() as int));
    assert(s[0] == 6u8);
}

#[verifier::rlimit(100)]
proof fn lemma_resp_rt_queued(id: MsgId, rest: Seq<u8>)
    ensures
        dec_resp(enc_resp(RespModel::ObjectQueued(id)) + rest) == Decoded::Done(
            RespModel::ObjectQueued(id),
            enc_resp(RespModel::ObjectQueued(id)).len() as int,
        ),
{
    reveal(dec_resp);
    let s = enc_resp(RespModel::ObjectQueued(id)) + rest;
    lemma_dec_id_of_enc(seq![2u8], id, rest);
    assert(s[0] == 2u8);
}

/// Round-trip: decoding the encoding of a response, whatever bytes follow
/// it, yields that response back and consumes exactly its encoding.
#[verifier::rlimit(100)]
pub proof fn lemma_resp_roundtrip(m: RespModel, rest: Seq<u8>)
    requires
        resp_fits(m),
    ensures
        dec_resp(enc_resp(m) + rest) == Decoded::Done(m, enc_resp(m).len() as int),
{
    reveal(dec_resp);
    let s = enc_resp(m) + rest;
    match m {
        RespModel::QueueCreated => {
            assert(s[0] == 0u8);
        },
        RespModel::QueueDeleted => {
            assert(s[0] == 1u8);
        },
        RespModel::ObjectQueued(id) => lemma_resp_rt_queued(id, rest),
        RespModel::Read(id, d) => lemma_resp_rt_read(id, d, rest),
        RespModel::Confirmed => {
            assert(s[0] == 4u8);
        },
        RespModel::Requeued => {
            assert(s[0] == 5u8);
        },
        RespModel::Full(id, d) => lemma_resp_rt_full(id, d, rest),
        RespModel::Empty => {
            assert(s[0] == 7u8);
        },
        RespModel::NoSuchEntity => {
            assert(s[0] == 8u8);
        },
    }
}

/// A decoded message consumes at least its tag byte and at most the buffer.
pub proof fn lemma_dec_req_consumes(s: Seq<u8>)
    ensures
        dec_req(s) matches Decoded::Done(m, n) ==> 1 <= n <= s.len(),
{
    reveal(dec_req);
    reveal(dec_blob);
    reveal(dec_u64);
    reveal(dec_id);
}


/// Append the bytes of a slice to a buffer.
pub(crate) fn push_bytes(out: &mut Vec<u8>, s: &[u8])
    ensures
        final(out)@ == old(out)@ + s@,
{
    let mut j: usize = 0;
    while j < s.len()
        invariant
            j <= s@.len(),
            out@ == old(out)@ + s@.subrange(0, j as int),
        decreases s@.len() - j,
    {
        out.push(s[j]);
        j = j + 1;
        proof {
            assert_seqs_equal!(old(out)@ + s@.subrange(0, j as int)
                == (old(out)@ + s@.subrange(0, j - 1)).push(s@[j - 1]));
        }
    }
    proof {
        assert_seqs_equal!(s@.subrange(0, s@.len() as int) == s@);
    }
}

/// Append the four little-endian bytes of a 32-bit integer.
fn push_le4(out: &mut Vec<u8>, x: u32)
    ensures
        final(out)@ == old(out)@ + le4(x),
{
    out.push((x & 0xff) as u8);
    out.push(((x >> 8) & 0xff) as u8);
    out.push(((x >> 16) & 0xff) as u8);
    out.push(((x >> 24) & 0xff) as u8);
    proof {
        assert_seqs_equal!(out@ == old(out)@ + le4(x));
    }
}

/// Append the eight little-endian bytes of a 64-bit integer.
fn push_le8(out: &mut Vec<u8>, x: u64)
    ensures
        final(out)@ == old(out)@ + le8(x),
{
    out.push((x & 0xff) as u8);
    out.push(((x >> 8) & 0xff) as u8);
    out.push(((x >> 16) & 0xff) as u8);
    out.push(((x >> 24) & 0xff) as u8);
    out.push(((x >> 32) & 0xff) as u8);
    out.push(((x >> 40) & 0xff) as u8);
    out.push(((x >> 48) & 0xff) as u8);
    out.push(((x >> 56) & 0xff) as u8);
    proof {
        assert_seqs_equal!(out@ == old(out)@ + le8(x));
    }
}

/// Append a length-prefixed byte string.
fn push_blob(out: &mut Vec<u8>, s: &[u8])
    ensures
        final(out)@ == old(out)@ + enc_blob(s@),
{
    let n: u32 = #[verifier::truncate] (s.len() as u32);
    push_le4(out, n);
    push_bytes(out, s);
    proof {
        assert_seqs_equal!(out@ == old(out)@ + enc_blob(s@));
    }
}

/// Append an identifier.
fn push_id(out: &mut Vec<u8>, id: MsgId)
    ensures
        final(out)@ == old(out)@ + enc_id(id),
{
    push_le8(out, id.lo);
    push_le8(out, id.hi);
    proof {
        assert_seqs_equal!(out@ == old(out)@ + enc_id(id));
    }
}

/// Read four little-endian bytes as a 32-bit integer.
fn read_le4(buf: &[u8], i: usize) -> (r: u32)
    requires
        i + 4 <= buf@.len(),
    ensures
        r == from_le4(buf@.subrange(i as int, i + 4)),
{
    let r = (buf[i] as u32) | ((buf[i + 1] as u32) << 8) | ((buf[i + 2] as u32) << 16)
        | ((buf[i + 3] as u32) << 24);
    proof {
        let s = buf@.subrange(i as int, i + 4);
        assert(s[0] == buf@[i as int] && s[1] == buf@[i + 1] && s[2] == buf@[i + 2]
            && s[3] == buf@[i + 3]);
    }
    r
}

/// Read eight little-endian bytes as a 64-bit integer.
fn read_le8(buf: &[u8], i: usize) -> (r: u64)
    requires
        i + 8 <= buf@.len(),
    ensures
        r == from_le8(buf@.subrange(i as int, i + 8)),
{
    let r = (buf[i] as u64) | ((buf[i + 1] as u64) << 8) | ((buf[i + 2] as u64) << 16)
        | ((buf[i + 3] as u64) << 24) | ((buf[i + 4] as u64) << 32)
        | ((buf[i + 5] as u64) << 40) | ((buf[i + 6] as u64) << 48)
        | ((buf[i + 7] as u64) << 56);
    proof {
        let s = buf@.subrange(i as int, i + 8);
        assert(s[0] == buf@[i as int] && s[1] == buf@[i + 1] && s[2] == buf@[i + 2]
            && s[3] == buf@[i + 3] && s[4] == buf@[i + 4] && s[5] == buf@[i + 5]
            && s[6] == buf@[i + 6] && s[7] == buf@[i + 7]);
    }
    r
}

/// Read a length-prefixed byte string starting at position `i`.
fn read_blob(buf: &[u8], i: usize) -> (r: Result<(Vec<u8>, usize), DecodingError>)
    requires
        i <= buf@.len(),
    ensures
        match r {
            Ok(p) => {
                &&& dec_blob(buf@, i as int) == Decoded::Done(p.0@, p.1 as int)
                &&& i < p.1 <= buf@.len()
            },
            Err(e) => e == DecodingError::Incomplete && dec_blob(buf@, i as int) is More,
        },
{
    proof {
        reveal(dec_blob);
    }
    if buf.len() - i < 4 {
        return Err(DecodingError::Incomplete);
    }
    let n = read_le4(buf, i) as usize;
    if buf.len() - (i + 4) < n {
        return Err(DecodingError::Incomplete);
    }
    let mut b: Vec<u8> = Vec::new();
    let mut j: usize = 0;
    while j < n
        invariant
            j <= n,
            i + 4 + n <= buf@.len(),
            buf@.len() <= usize::MAX,
            b@ == buf@.subrange(i + 4, i + 4 + j),
        decreases n - j,
    {
        b.push(buf[i + 4 + j]);
        j = j + 1;
        proof {
            assert_seqs_equal!(buf@.subrange(i + 4, i + 4 + j)
                == buf@.subrange(i + 4, i + 4 + j - 1).push(buf@[i + 4 + j - 1]));
        }
    }
    Ok((b, i + 4 + n))
}

/// Read an identifier starting at position `i`.
fn read_id(buf: &[u8], i: usize) -> (r: Result<(MsgId, usize), DecodingError>)
    requires
        i <= buf@.len(),
    ensures
        match r {
            Ok(p) => dec_id(buf@, i as int) == Decoded::Done(p.0, p.1 as int) && i < p.1
                <= buf@.len(),
            Err(e) => e == DecodingError::Incomplete && dec_id(buf@, i as int) is More,
        },
{
    proof {
        reveal(dec_id);
    }
    if buf.len() - i < 16 {
        return Err(DecodingError::Incomplete);
    }
    let lo = read_le8(buf, i);
    let hi = read_le8(buf, i + 8);
    Ok((MsgId { hi, lo }, i + 16))
}

impl ClientMessage {
    /// Encode this request, refusing one over the size bound.
    pub fn encode(&self) -> (r: Result<Vec<u8>, EncodingError>)
        ensures
            match r {
                Ok(b) => b@ == enc_req(self@) && b@.len() <= MAX_CLIENT_MESSAGE_LEN,
                Err(e) => e == EncodingError::SizeLimit && enc_req(self@).len()
                    > MAX_CLIENT_MESSAGE_LEN,
            },
    {
        let mut out: Vec<u8> = Vec::new();
        match self {
            ClientMessage::CreateQueue(name) => {
                out.push(0);
                push_blob(&mut out, name.as_slice());
            },
            ClientMessage::DeleteQueue(name) => {
                out.push(1);
                push_blob(&mut out, name.as_slice());
            },
            ClientMessage::Enqueue(name, data) => {
                out.push(2);
                push_blob(&mut out, name.as_slice());
                push_blob(&mut out, data.as_slice());
            },
            ClientMessage::Read(name, timeout) => {
                out.push(3);
                push_blob(&mut out, name.as_slice());
                push_le8(&mut out, *timeout);
            },
            ClientMessage::Confirm(id) => {
                out.push(4);
                push_id(&mut out, *id);
            },
        }
        proof {
            assert_seqs_equal!(out@ == enc_req(self@));
        }
        if out.len() as u64 > MAX_CLIENT_MESSAGE_LEN {
            Err(EncodingError::SizeLimit)
        } else {
            Ok(out)
        }
    }

    /// Encode this request onto the tail of an outgoing buffer.
    pub fn encode_to(&self, out: &mut Vec<u8>) -> (r: Result<(), EncodingError>)
        ensures
            match r {
                Ok(()) => final(out)@ == old(out)@ + enc_req(self@) && enc_req(self@).len()
                    <= MAX_CLIENT_MESSAGE_LEN,
                Err(e) => e == EncodingError::SizeLimit && final(out)@ == old(out)@
                    && enc_req(self@).len() > MAX_CLIENT_MESSAGE_LEN,
            },
    {
        match self.encode() {
            Ok(b) => {
                push_bytes(out, b.as_slice());
                Ok(())
            },
            Err(e) => Err(e),
        }
    }

    /// Decode one request from the head of a buffer; on success the second
    /// component is the number of bytes consumed.
    pub fn decode(buf: &[u8]) -> (r: Result<(ClientMessage, usize), DecodingError>)
        ensures
            match r {
                Ok(p) => {
                    &&& dec_req(buf@) == Decoded::Done(p.0@, p.1 as int)
                    &&& 0 < p.1 <= buf@.len()
                },
                Err(DecodingError::Incomplete) => dec_req(buf@) is More,
                Err(DecodingError::Invalid) => dec_req(buf@) is Bad,
            },
    {
        proof {
            reveal(dec_req);
            reveal(dec_u64);
        }
        if buf.len() < 1 {
            return Err(DecodingError::Incomplete);
        }
        let tag = buf[0];
        if tag == 0 {
            let (name, end) = read_blob(buf, 1)?;
            Ok((ClientMessage::CreateQueue(name), end))
        } else if tag == 1 {
            let (name, end) = read_blob(buf, 1)?;
            Ok((ClientMessage::DeleteQueue(name), end))
        } else if tag == 2 {
            let (name, e1) = read_blob(buf, 1)?;
            let (data, e2) = read_blob(buf, e1)?;
            Ok((ClientMessage::Enqueue(name, data), e2))
        } else if tag == 3 {
            let (name, e1) = read_blob(buf, 1)?;
            if buf.len() - e1 < 8 {
                return Err(DecodingError::Incomplete);
            }
            let timeout = read_le8(buf, e1);
            Ok((ClientMessage::Read(name, timeout), e1 + 8))
        } else if tag == 4 {
            let (id, end) = read_id(buf, 1)?;
            Ok((ClientMessage::Confirm(id), end))
        } else {
            Err(DecodingError::Invalid)
        }
    }
}

impl ServerMessage {
    /// Encode this response, refusing one over the size bound.
    pub fn encode(&self) -> (r: Result<Vec<u8>, EncodingError>)
        ensures
            match r {
                Ok(b) => b@ == enc_resp(self@) && b@.len() <= MAX_SERVER_MESSAGE_LEN,
                Err(e) => e == EncodingError::SizeLimit && enc_resp(self@).len()
                    > MAX_SERVER_MESSAGE_LEN,
            },
    {
        let mut out: Vec<u8> = Vec::new();
        match self {
            ServerMessage::QueueCreated => {
                out.push(0);
            },
            ServerMessage::QueueDeleted => {
                out.push(1);
            },
            ServerMessage::ObjectQueued(id) => {
                out.push(2);
                push_id(&mut out, *id);
            },
            ServerMessage::Read(id, data) => {
                out.push(3);
                push_id(&mut out, *id);
                push_blob(&mut out, data.as_slice());
            },
            ServerMessage::Confirmed => {
                out.push(4);
            },
            ServerMessage::Requeued => {
                out.push(5);
            },
            ServerMessage::Full(id, data) => {
                out.push(6);
                push_id(&mut out, *id);
                push_blob(&mut out, data.as_slice());
            },
            ServerMessage::Empty => {
                out.push(7);
            },
            ServerMessage::NoSuchEntity => {
                out.push(8);
            },
        }
        proof {
            assert_seqs_equal!(out@ == enc_resp(self@));
        }
        if out.len() as u64 > MAX_SERVER_MESSAGE_LEN {
            Err(EncodingError::SizeLimit)
        } else {
            Ok(out)
        }
    }

    /// Decode one response from the head of a buffer; on success the second
    /// component is the number of bytes consumed.
    pub fn decode(buf: &[u8]) -> (r: Result<(ServerMessage, usize), DecodingError>)
        ensures
            match r {
                Ok(p) => {
                    &&& dec_resp(buf@) == Decoded::Done(p.0@, p.1 as int)
                    &&& 0 < p.1 <= buf@.len()
                },
                Err(DecodingError::Incomplete) => dec_resp(buf@) is More,
                Err(DecodingError::Invalid) => dec_resp(buf@) is Bad,
            },
    {
        proof {
            reveal(dec_resp);
        }
        if buf.len() < 1 {
            return Err(DecodingError::Incomplete);
        }
        let tag = buf[0];
        if tag == 0 {
            Ok((ServerMessage::QueueCreated, 1))
        } else if tag == 1 {
            Ok((ServerMessage::QueueDeleted, 1))
        } else if tag == 2 {
            let (id, end) = read_id(buf, 1)?;
            Ok((ServerMessage::ObjectQueued(id), end))
        } else if tag == 3 {
            let (id, e1) = read_id(buf, 1)?;
            let (data, e2) = read_blob(buf, e1)?;
            Ok((ServerMessage::Read(id, data), e2))
        } else if tag == 4 {
            Ok((ServerMessage::Confirmed, 1))
        } else if tag == 5 {
            Ok((ServerMessage::Requeued, 1))
        } else if tag == 6 {
            let (id, e1) = read_id(buf, 1)?;
            let (data, e2) = read_blob(buf, e1)?;
            Ok((ServerMessage::Full(id, data), e2))
        } else if tag == 7 {
            Ok((ServerMessage::Empty, 1))
        } else if tag == 8 {
            Ok((ServerMessage::NoSuchEntity, 1))
        } else {
            Err(DecodingError::Invalid)
        }
    }
}

} // verus!
