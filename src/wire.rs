//! Little-endian words in byte buffers.

use vstd::bytes::*;
use vstd::prelude::*;
use vstd::slice::slice_subrange;

verus! {

/// The 32-bit little-endian word stored at byte `p` of `s`.
pub open spec fn word_at(s: Seq<u8>, p: int) -> u32 {
    spec_u32_from_le_bytes(s.subrange(p, p + 4))
}

/// The four bytes that encode `x` little-endian.
pub open spec fn le(x: u32) -> Seq<u8> {
    spec_u32_to_le_bytes(x)
}

pub proof fn lemma_le_len(x: u32)
    ensures
        le(x).len() == 4,
{
    lemma_auto_spec_u32_to_from_le_bytes();
}

/// Reading back the word that was written gives the same word.
pub proof fn lemma_word_at_le(s: Seq<u8>, p: int, x: u32)
    requires
        0 <= p,
        p + 4 <= s.len(),
        s.subrange(p, p + 4) == le(x),
    ensures
        word_at(s, p) == x,
{
    lemma_auto_spec_u32_to_from_le_bytes();
    assert(spec_u32_to_le_bytes(x).len() == 4);
}

/// Appends the little-endian encoding of `x`.
pub fn push_u32(out: &mut Vec<u8>, x: u32)
    ensures
        final(out)@ == old(out)@ + le(x),
{
    proof {
        lemma_auto_spec_u32_to_from_le_bytes();
    }
    let b = u32_to_le_bytes(x);
    out.push(b[0]);
    out.push(b[1]);
    out.push(b[2]);
    out.push(b[3]);
    assert(out@ =~= old(out)@ + le(x));
}

/// Appends every byte of `data`.
pub fn append_bytes(out: &mut Vec<u8>, data: &[u8])
    ensures
        final(out)@ == old(out)@ + data@,
{
    let ghost start = out@;
    let mut i: usize = 0;
    while i < data.len()
        invariant
            i <= data@.len(),
            out@ == start + data@.subrange(0, i as int),
        decreases data@.len() - i,
    {
        out.push(data[i]);
        assert(data@.subrange(0, i + 1) =~= data@.subrange(0, i as int).push(data@[i as int]));
        i = i + 1;
    }
    assert(data@.subrange(0, data@.len() as int) =~= data@);
}

/// Reads the little-endian word at byte `pos`, if four bytes are there.
pub fn read_u32(data: &[u8], pos: usize) -> (r: Option<u32>)
    ensures
        r == (if pos + 4 <= data@.len() {
            Some(word_at(data@, pos as int))
        } else {
            None::<u32>
        }),
{
    if pos > data.len() || data.len() - pos < 4 {
        return None;
    }
    let w = slice_subrange(data, pos, pos + 4);
    Some(u32_from_le_bytes(w))
}

/// Overwrites the four bytes at `pos` with the little-endian encoding of `x`.
pub fn write_u32_at(buf: &mut Vec<u8>, pos: usize, x: u32)
    requires
        pos + 4 <= old(buf)@.len(),
    ensures
        final(buf)@ == old(buf)@.subrange(0, pos as int) + le(x) + old(buf)@.subrange(
            pos + 4,
            old(buf)@.len() as int,
        ),
{
    proof {
        lemma_auto_spec_u32_to_from_le_bytes();
    }
    let n = buf.len();
    assert(pos + 4 <= n);
    let b = u32_to_le_bytes(x);
    buf.set(pos, b[0]);
    buf.set(pos + 1, b[1]);
    buf.set(pos + 2, b[2]);
    buf.set(pos + 3, b[3]);
    assert(buf@ =~= old(buf)@.subrange(0, pos as int) + le(x) + old(buf)@.subrange(
        pos + 4,
        old(buf)@.len() as int,
    ));
}

/// The 32-bit words of `ws`, little-endian.
pub open spec fn words_le(ws: Seq<u32>) -> Seq<u8>
    decreases ws.len(),
{
    if ws.len() == 0 {
        Seq::empty()
    } else {
        words_le(ws.drop_last()) + le(ws.last())
    }
}

pub proof fn lemma_words_le_push(ws: Seq<u32>, x: u32)
    ensures
        words_le(ws.push(x)) == words_le(ws) + le(x),
{
    assert(ws.push(x).drop_last() =~= ws);
}

/// Appends each word of `ws`, little-endian.
pub fn push_words(out: &mut Vec<u8>, ws: &Vec<u32>)
    ensures
        final(out)@ == old(out)@ + words_le(ws@),
{
    let mut i: usize = 0;
    while i < ws.len()
        invariant
            i <= ws@.len(),
            out@ == old(out)@ + words_le(ws@.subrange(0, i as int)),
        decreases ws@.len() - i,
    {
        push_u32(out, ws[i]);
        proof {
            assert(ws@.subrange(0, i + 1).drop_last() =~= ws@.subrange(0, i as int));
        }
        i = i + 1;
    }
    assert(ws@.subrange(0, ws@.len() as int) =~= ws@);
}

pub proof fn lemma_words_le_len(ws: Seq<u32>)
    ensures
        words_le(ws).len() == 4 * ws.len(),
    decreases ws.len(),
{
    if ws.len() > 0 {
        lemma_words_le_len(ws.drop_last());
        crate::wire::lemma_le_len(ws.last());
    }
}

} // verus!
