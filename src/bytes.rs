//! Little-endian integer framing on byte sequences.
use vstd::prelude::*;

verus! {

/// The four bytes of `v`, least significant first.
pub open spec fn le32(v: u32) -> Seq<u8> {
    seq![
        (v & 0xff) as u8,
        ((v >> 8u32) & 0xff) as u8,
        ((v >> 16u32) & 0xff) as u8,
        ((v >> 24u32) & 0xff) as u8,
    ]
}

/// The 32-bit value stored least significant byte first at `at`.
pub open spec fn u32_at(s: Seq<u8>, at: int) -> u32 {
    (s[at] as u32) | ((s[at + 1] as u32) << 8u32) | ((s[at + 2] as u32) << 16u32) | ((s[at + 3]
        as u32) << 24u32)
}

/// `h` with the four bytes at `at` replaced by the encoding of `v`.
pub open spec fn patch32(h: Seq<u8>, at: int, v: u32) -> Seq<u8> {
    h.subrange(0, at) + le32(v) + h.subrange(at + 4, h.len() as int)
}

proof fn lemma_bytes_of_word(a: u8, b: u8, c: u8, d: u8)
    ensures
        ({
            let v = (a as u32) | ((b as u32) << 8u32) | ((c as u32) << 16u32) | ((d as u32)
                << 24u32);
            &&& (v & 0xff) as u8 == a
            &&& ((v >> 8u32) & 0xff) as u8 == b
            &&& ((v >> 16u32) & 0xff) as u8 == c
            &&& ((v >> 24u32) & 0xff) as u8 == d
        }),
{
    assert(((((a as u32) | ((b as u32) << 8u32) | ((c as u32) << 16u32) | ((d as u32) << 24u32))
        & 0xff) as u8 == a) && (((((a as u32) | ((b as u32) << 8u32) | ((c as u32) << 16u32) | ((
    d as u32) << 24u32)) >> 8u32) & 0xff) as u8 == b) && (((((a as u32) | ((b as u32) << 8u32)
        | ((c as u32) << 16u32) | ((d as u32) << 24u32)) >> 16u32) & 0xff) as u8 == c) && ((((
    (a as u32) | ((b as u32) << 8u32) | ((c as u32) << 16u32) | ((d as u32) << 24u32))
        >> 24u32) & 0xff) as u8 == d)) by (bit_vector);
}

/// Reading a word back from its own encoding gives the word.
pub proof fn lemma_u32_at_le32(v: u32)
    ensures
        u32_at(le32(v), 0) == v,
{
    let s = le32(v);
    assert(((v & 0xff) as u8 as u32) | ((((v >> 8u32) & 0xff) as u8 as u32) << 8u32) | ((((v
        >> 16u32) & 0xff) as u8 as u32) << 16u32) | ((((v >> 24u32) & 0xff) as u8 as u32)
        << 24u32) == v) by (bit_vector);
}

/// Encoding a word read from four bytes gives those bytes back.
pub proof fn lemma_le32_u32_at(s: Seq<u8>, at: int)
    requires
        0 <= at,
        at + 4 <= s.len(),
    ensures
        le32(u32_at(s, at)) == s.subrange(at, at + 4),
{
    lemma_bytes_of_word(s[at], s[at + 1], s[at + 2], s[at + 3]);
    assert(le32(u32_at(s, at)) =~= s.subrange(at, at + 4));
}

/// Patching a word with the value already stored there changes nothing.
pub proof fn lemma_patch32_same(h: Seq<u8>, at: int)
    requires
        0 <= at,
        at + 4 <= h.len(),
    ensures
        patch32(h, at, u32_at(h, at)) == h,
{
    lemma_le32_u32_at(h, at);
    assert(patch32(h, at, u32_at(h, at)) =~= h);
}

/// The word at `at` of a patched sequence is the patched value.
pub proof fn lemma_u32_at_patch32(h: Seq<u8>, at: int, v: u32)
    requires
        0 <= at,
        at + 4 <= h.len(),
    ensures
        u32_at(patch32(h, at, v), at) == v,
        patch32(h, at, v).len() == h.len(),
{
    lemma_u32_at_le32(v);
    let p = patch32(h, at, v);
    assert(p[at] == le32(v)[0]);
    assert(p[at + 1] == le32(v)[1]);
    assert(p[at + 2] == le32(v)[2]);
    assert(p[at + 3] == le32(v)[3]);
}

/// A word inside the left part of a concatenation.
pub proof fn lemma_u32_at_left(a: Seq<u8>, b: Seq<u8>, at: int)
    requires
        0 <= at,
        at + 4 <= a.len(),
    ensures
        u32_at(a + b, at) == u32_at(a, at),
{
}

/// A word inside the right part of a concatenation.
pub proof fn lemma_u32_at_right(a: Seq<u8>, b: Seq<u8>, at: int)
    requires
        0 <= at,
        at + 4 <= b.len(),
    ensures
        u32_at(a + b, a.len() + at) == u32_at(b, at),
{
}

/// The word stored at `at`.
pub fn read_u32(b: &[u8], at: usize) -> (r: u32)
    requires
        at + 4 <= b@.len(),
    ensures
        r == u32_at(b@, at as int),
{
    (b[at] as u32) | ((b[at + 1] as u32) << 8u32) | ((b[at + 2] as u32) << 16u32) | ((b[at + 3]
        as u32) << 24u32)
}

/// Appends the encoding of `v`.
pub fn push_u32(out: &mut Vec<u8>, v: u32)
    ensures
        final(out)@ == old(out)@ + le32(v),
{
    out.push((v & 0xff) as u8);
    out.push(((v >> 8u32) & 0xff) as u8);
    out.push(((v >> 16u32) & 0xff) as u8);
    out.push(((v >> 24u32) & 0xff) as u8);
    assert(final(out)@ =~= old(out)@ + le32(v));
}

/// Appends `src[lo..hi]`.
pub fn push_range(out: &mut Vec<u8>, src: &[u8], lo: usize, hi: usize)
    requires
        lo <= hi <= src@.len(),
    ensures
        final(out)@ == old(out)@ + src@.subrange(lo as int, hi as int),
{
    let mut i: usize = lo;
    while i < hi
        invariant
            lo <= i <= hi,
            hi <= src@.len(),
            out@ == old(out)@ + src@.subrange(lo as int, i as int),
        decreases hi - i,
    {
        out.push(src[i]);
        assert(src@.subrange(lo as int, i + 1) =~= src@.subrange(lo as int, i as int).push(src@[i as int]));
        i = i + 1;
    }
}

/// Appends `h` with the word at `at` replaced by `v`.
pub fn push_patched(out: &mut Vec<u8>, h: &[u8], at: usize, v: u32)
    requires
        at + 4 <= h@.len(),
    ensures
        final(out)@ == old(out)@ + patch32(h@, at as int, v),
{
    let n = h.len();
    push_range(out, h, 0, at);
    push_u32(out, v);
    push_range(out, h, at + 4, n);
    assert(final(out)@ =~= old(out)@ + patch32(h@, at as int, v));
}

/// A fresh copy of `b[lo..hi]`.
pub fn copy_range(b: &[u8], lo: usize, hi: usize) -> (r: Vec<u8>)
    requires
        lo <= hi <= b@.len(),
    ensures
        r@ == b@.subrange(lo as int, hi as int),
{
    let mut r: Vec<u8> = Vec::new();
    push_range(&mut r, b, lo, hi);
    assert(r@ =~= b@.subrange(lo as int, hi as int));
    r
}

} // verus!
