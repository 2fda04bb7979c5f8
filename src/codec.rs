//! Fixed-width big-endian 32-bit words over a byte stream.

use vstd::prelude::*;

verus! {

/// The value of four bytes read most significant first.
pub open spec fn be_value(s: Seq<u8>) -> int {
    s[0] as int * 16777216 + s[1] as int * 65536 + s[2] as int * 256 + s[3] as int
}

/// The four bytes of `n`, most significant first.
pub open spec fn be_bytes(n: u32) -> Seq<u8> {
    seq![
        (n / 16777216) as u8,
        ((n / 65536) % 256) as u8,
        ((n / 256) % 256) as u8,
        (n % 256) as u8,
    ]
}

/// The `k`-th word of a byte sequence.
pub open spec fn word_at(s: Seq<u8>, k: int) -> u32 {
    be_value(s.subrange(4 * k, 4 * k + 4)) as u32
}

/// The bytes of a sequence of words, each written big-endian in order.
pub open spec fn words_bytes(ws: Seq<u32>) -> Seq<u8>
    decreases ws.len(),
{
    if ws.len() == 0 {
        Seq::empty()
    } else {
        words_bytes(ws.drop_last()) + be_bytes(ws.last())
    }
}

/// Relies on byteorder's `BigEndian::read_u32`, which decodes `buf[..4]`
/// as a big-endian `u32` and panics on fewer than four bytes.
#[verifier::external_body]
fn read_be(buf: &[u8], at: usize) -> (r: u32)
    requires
        at + 4 <= buf@.len(),
    ensures
        r as int == be_value(buf@.subrange(at as int, at + 4)),
{
    <byteorder::BigEndian as byteorder::ByteOrder>::read_u32(&buf[at..])
}

/// Relies on byteorder's `BigEndian::write_u32`, which stores the four
/// big-endian bytes of `n` in `buf[..4]`; those four bytes are appended.
#[verifier::external_body]
fn push_be(out: &mut Vec<u8>, n: u32)
    ensures
        final(out)@ == old(out)@ + be_bytes(n),
{
    let mut buf = [0u8; 4];
    <byteorder::BigEndian as byteorder::ByteOrder>::write_u32(&mut buf, n);
    out.extend_from_slice(&buf);
}

/// Reads the word that starts at byte `at`; `None` when fewer than four
/// bytes remain, which a reader treats as the stream having closed.
pub fn decode_u32(buf: &[u8], at: usize) -> (r: Option<u32>)
    ensures
        r is None <==> at as int + 4 > buf@.len(),
        r matches Some(v) ==> v as int == be_value(buf@.subrange(at as int, at + 4)),
{
    if at > buf.len() || buf.len() - at < 4 {
        None
    } else {
        Some(read_be(buf, at))
    }
}

/// Reads word `k`, the one at byte `4 * k`.
pub fn word(buf: &[u8], k: usize) -> (r: u32)
    requires
        4 * k + 4 <= buf@.len(),
    ensures
        r == word_at(buf@, k as int),
{
    // brings in that a slice's length fits in usize
    let _len = buf.len();
    read_be(buf, 4 * k)
}

/// The four big-endian bytes of `n`.
pub fn encode_u32(n: u32) -> (r: Vec<u8>)
    ensures
        r@ == be_bytes(n),
{
    let mut out: Vec<u8> = Vec::new();
    push_be(&mut out, n);
    proof {
        assert(out@ =~= be_bytes(n));
    }
    out
}

/// Writes a sequence of words big-endian, one after the other.
pub fn encode_words(ws: &Vec<u32>) -> (r: Vec<u8>)
    ensures
        r@ == words_bytes(ws@),
{
    let mut out: Vec<u8> = Vec::new();
    let mut k: usize = 0;
    while k < ws.len()
        invariant
            k <= ws@.len(),
            out@ == words_bytes(ws@.subrange(0, k as int)),
        decreases ws@.len() - k,
    {
        push_be(&mut out, ws[k]);
        proof {
            let pre = ws@.subrange(0, k as int + 1);
            assert(pre.drop_last() =~= ws@.subrange(0, k as int));
        }
        k = k + 1;
    }
    proof {
        assert(ws@.subrange(0, ws@.len() as int) =~= ws@);
    }
    out
}

/// Decoding the bytes that encoding gives back yields the same word.
pub proof fn lemma_be_round_trip(n: u32)
    ensures
        be_value(be_bytes(n)) == n as int,
{
    let q1 = n / 256;
    let q2 = n / 65536;
    assert(n as int == q1 as int * 256 + (n % 256) as int);
    assert(q1 as int == q2 as int * 256 + (q1 % 256) as int);
    assert(q1 % 256 == (n / 256) % 256);
    assert(q2 == q1 / 256);
    assert(q2 as int == (n / 16777216) as int * 256 + (q2 % 256) as int);
    assert(n / 16777216 < 256);
}

/// A word of an encoded sequence reads back as that word.
pub proof fn lemma_words_round_trip(ws: Seq<u32>, k: int)
    requires
        0 <= k < ws.len(),
    ensures
        words_bytes(ws).len() == 4 * ws.len(),
        word_at(words_bytes(ws), k) == ws[k],
    decreases ws.len(),
{
    lemma_words_len(ws);
    if k == ws.len() - 1 {
        lemma_words_len(ws.drop_last());
        let s = words_bytes(ws);
        assert(s.subrange(4 * k, 4 * k + 4) =~= be_bytes(ws.last()));
        lemma_be_round_trip(ws.last());
    } else {
        lemma_words_round_trip(ws.drop_last(), k);
        let s = words_bytes(ws);
        assert(s.subrange(4 * k, 4 * k + 4) =~= words_bytes(ws.drop_last()).subrange(4 * k, 4 * k + 4));
    }
}

/// The encoding of `k` words has `4 * k` bytes.
pub proof fn lemma_words_len(ws: Seq<u32>)
    ensures
        words_bytes(ws).len() == 4 * ws.len(),
    decreases ws.len(),
{
    if ws.len() > 0 {
        lemma_words_len(ws.drop_last());
    }
}

} // verus!
