//! Byte-level views of the little- and big-endian integers the format uses,
//! and the in-place writes that lay them down.

use vstd::prelude::*;

verus! {

/// Unsigned little-endian 32-bit integer whose low byte is at `off`.
pub open spec fn spec_le32(s: Seq<u8>, off: int) -> int {
    s[off] + 0x100 * s[off + 1] + 0x10000 * s[off + 2] + 0x1000000 * s[off + 3]
}

/// Unsigned big-endian 32-bit integer whose high byte is at `off`.
pub open spec fn spec_be32(s: Seq<u8>, off: int) -> int {
    0x1000000 * s[off] + 0x10000 * s[off + 1] + 0x100 * s[off + 2] + s[off + 3]
}

/// The four bytes of `v`, least significant first.
pub open spec fn le32_bytes(v: u32) -> Seq<u8> {
    seq![
        (v % 0x100) as u8,
        ((v / 0x100) % 0x100) as u8,
        ((v / 0x10000) % 0x100) as u8,
        ((v / 0x1000000) % 0x100) as u8,
    ]
}

/// The four bytes of `v`, most significant first.
pub open spec fn be32_bytes(v: u32) -> Seq<u8> {
    seq![
        ((v / 0x1000000) % 0x100) as u8,
        ((v / 0x10000) % 0x100) as u8,
        ((v / 0x100) % 0x100) as u8,
        (v % 0x100) as u8,
    ]
}

/// The two bytes of `v`, least significant first.
pub open spec fn le16_bytes(v: u16) -> Seq<u8> {
    seq![(v % 0x100) as u8, (v / 0x100) as u8]
}

/// `n` zero bytes.
pub open spec fn zeros(n: nat) -> Seq<u8> {
    Seq::new(n, |i: int| 0u8)
}

/// `s` with `b` written over it from `off` on (a write that fits).
pub open spec fn splice(s: Seq<u8>, off: int, b: Seq<u8>) -> Seq<u8> {
    Seq::new(s.len(), |i: int| if off <= i < off + b.len() { b[i - off] } else { s[i] })
}

/// Reading back the little-endian bytes of `v` gives `v`.
pub proof fn lemma_le32_roundtrip(v: u32)
    ensures
        spec_le32(le32_bytes(v), 0) == v,
{
    let b = le32_bytes(v);
    assert(b[0] == v % 0x100);
    assert(b[1] == (v / 0x100) % 0x100);
    assert(b[2] == (v / 0x10000) % 0x100);
    assert(b[3] == (v / 0x1000000) % 0x100);
    assert(v == v % 0x100 + 0x100 * ((v / 0x100) % 0x100) + 0x10000 * ((v / 0x10000) % 0x100)
        + 0x1000000 * ((v / 0x1000000) % 0x100)) by (bit_vector);
}

/// Reading back the big-endian bytes of `v` gives `v`.
pub proof fn lemma_be32_roundtrip(v: u32)
    ensures
        spec_be32(be32_bytes(v), 0) == v,
{
    let b = be32_bytes(v);
    assert(b[3] == v % 0x100);
    assert(b[2] == (v / 0x100) % 0x100);
    assert(b[1] == (v / 0x10000) % 0x100);
    assert(b[0] == (v / 0x1000000) % 0x100);
    assert(v == v % 0x100 + 0x100 * ((v / 0x100) % 0x100) + 0x10000 * ((v / 0x10000) % 0x100)
        + 0x1000000 * ((v / 0x1000000) % 0x100)) by (bit_vector);
}

/// Writing back the value read at `o` reproduces the four bytes there.
pub proof fn lemma_le32_bytes_of(s: Seq<u8>, o: int)
    requires
        0 <= o,
        o + 4 <= s.len(),
    ensures
        le32_bytes(spec_le32(s, o) as u32) == s.subrange(o, o + 4),
{
    let a = s[o];
    let b = s[o + 1];
    let c = s[o + 2];
    let d = s[o + 3];
    let v = spec_le32(s, o) as u32;
    assert(v == a as u32 + 0x100 * (b as u32) + 0x10000 * (c as u32) + 0x1000000 * (d as u32));
    assert(v == a as u32 + 0x100 * (b as u32) + 0x10000 * (c as u32) + 0x1000000 * (d as u32) ==> (
    v % 0x100 == a && (v / 0x100) % 0x100 == b && (v / 0x10000) % 0x100 == c && (v / 0x1000000)
        % 0x100 == d)) by (bit_vector);
    assert(le32_bytes(v) =~= s.subrange(o, o + 4));
}

/// Writing back the big-endian value read at `o` reproduces the four bytes.
pub proof fn lemma_be32_bytes_of(s: Seq<u8>, o: int)
    requires
        0 <= o,
        o + 4 <= s.len(),
    ensures
        be32_bytes(spec_be32(s, o) as u32) == s.subrange(o, o + 4),
{
    let a = s[o + 3];
    let b = s[o + 2];
    let c = s[o + 1];
    let d = s[o];
    let v = spec_be32(s, o) as u32;
    assert(v == a as u32 + 0x100 * (b as u32) + 0x10000 * (c as u32) + 0x1000000 * (d as u32));
    assert(v == a as u32 + 0x100 * (b as u32) + 0x10000 * (c as u32) + 0x1000000 * (d as u32) ==> (
    v % 0x100 == a && (v / 0x100) % 0x100 == b && (v / 0x10000) % 0x100 == c && (v / 0x1000000)
        % 0x100 == d)) by (bit_vector);
    assert(be32_bytes(v) =~= s.subrange(o, o + 4));
}

/// The little-endian 32-bit integer at `off` in `b`.
pub fn rd32(b: &[u8], off: usize) -> (v: u32)
    requires
        off + 4 <= b@.len(),
    ensures
        v as int == spec_le32(b@, off as int),
{
    b[off] as u32 + 0x100 * (b[off + 1] as u32) + 0x10000 * (b[off + 2] as u32) + 0x1000000 * (
    b[off + 3] as u32)
}

/// The big-endian 32-bit integer at `off` in `b`.
pub fn rd32_be(b: &[u8], off: usize) -> (v: u32)
    requires
        off + 4 <= b@.len(),
    ensures
        v as int == spec_be32(b@, off as int),
{
    0x1000000 * (b[off] as u32) + 0x10000 * (b[off + 1] as u32) + 0x100 * (b[off + 2] as u32) + b[
    off + 3] as u32
}

/// The little-endian 16-bit integer at `off` in `b`.
pub fn rd16(b: &[u8], off: usize) -> (v: u16)
    requires
        off + 2 <= b@.len(),
    ensures
        v as int == crate::checksum::le16(b@, off as int),
{
    b[off] as u16 + 0x100 * (b[off + 1] as u16)
}

/// Write `src` into `buf` from `off` on.
pub fn write_bytes(buf: &mut Vec<u8>, off: usize, src: &[u8])
    requires
        off + src@.len() <= old(buf)@.len(),
    ensures
        final(buf)@ == splice(old(buf)@, off as int, src@),
{
    let ghost s = buf@;
    let _len = buf.len();  // bounds the length by usize::MAX for the offsets below
    let n = src.len();
    let mut i: usize = 0;
    while i < n
        invariant
            n == src@.len(),
            off + n <= s.len(),
            s.len() <= usize::MAX,
            i <= n,
            buf@.len() == s.len(),
            forall|j: int|
                0 <= j < s.len() ==> #[trigger] buf@[j] == if off <= j < off + i {
                    src@[j - off]
                } else {
                    s[j]
                },
        decreases n - i,
    {
        buf.set(off + i, src[i]);
        i = i + 1;
    }
    assert(buf@ =~= splice(s, off as int, src@));
}

/// Append the little-endian bytes of `v`.
pub fn push_le32(buf: &mut Vec<u8>, v: u32)
    ensures
        final(buf)@ == old(buf)@ + le32_bytes(v),
{
    buf.push((v % 0x100) as u8);
    buf.push(((v / 0x100) % 0x100) as u8);
    buf.push(((v / 0x10000) % 0x100) as u8);
    buf.push(((v / 0x1000000) % 0x100) as u8);
    assert(final(buf)@ =~= old(buf)@ + le32_bytes(v));
}

/// Append the big-endian bytes of `v`.
pub fn push_be32(buf: &mut Vec<u8>, v: u32)
    ensures
        final(buf)@ == old(buf)@ + be32_bytes(v),
{
    buf.push(((v / 0x1000000) % 0x100) as u8);
    buf.push(((v / 0x10000) % 0x100) as u8);
    buf.push(((v / 0x100) % 0x100) as u8);
    buf.push((v % 0x100) as u8);
    assert(final(buf)@ =~= old(buf)@ + be32_bytes(v));
}

/// Append `src`.
pub fn append_bytes(v: &mut Vec<u8>, src: &[u8])
    ensures
        final(v)@ == old(v)@ + src@,
{
    let ghost v0 = v@;
    let mut i: usize = 0;
    while i < src.len()
        invariant
            i <= src@.len(),
            v@ == v0 + src@.subrange(0, i as int),
        decreases src@.len() - i,
    {
        v.push(src[i]);
        i = i + 1;
        assert(v@ =~= v0 + src@.subrange(0, i as int));
    }
    assert(src@.subrange(0, src@.len() as int) =~= src@);
}

/// Append `n` zero bytes.
pub fn append_zeros(v: &mut Vec<u8>, n: usize)
    ensures
        final(v)@ == old(v)@ + zeros(n as nat),
{
    let ghost v0 = v@;
    let mut i: usize = 0;
    while i < n
        invariant
            i <= n,
            v@ == v0 + zeros(i as nat),
        decreases n - i,
    {
        v.push(0);
        i = i + 1;
        assert(v@ =~= v0 + zeros(i as nat));
    }
}

/// A vector of `n` zero bytes.
pub fn zero_vec(n: usize) -> (v: Vec<u8>)
    ensures
        v@ == zeros(n as nat),
{
    let mut v: Vec<u8> = Vec::new();
    let mut i: usize = 0;
    while i < n
        invariant
            i <= n,
            v@ == zeros(i as nat),
        decreases n - i,
    {
        v.push(0);
        i = i + 1;
        assert(v@ =~= zeros(i as nat));
    }
    v
}

} // verus!
