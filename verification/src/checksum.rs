//! Novatek firmware checksum.
//!
//! The bootloader sums the little-endian 16-bit words of a region, adding
//! each word's index as well, and accepts the region when the low 16 bits of
//! that sum are zero. Producers make that true by parking a corrective word
//! inside the region (see [`solve`]).

use vstd::prelude::*;
use vstd::arithmetic::div_mod::lemma_add_mod_noop;

verus! {

/// The little-endian 16-bit word whose low byte sits at `off`.
pub open spec fn le16(s: Seq<u8>, off: int) -> int {
    s[off] + 256 * s[off + 1]
}

/// Sum of `word(i) + i` over the first `n` words of `s`, unbounded.
pub open spec fn word_sum(s: Seq<u8>, n: nat) -> int
    decreases n,
{
    if n == 0 {
        0
    } else {
        word_sum(s, (n - 1) as nat) + le16(s, 2 * (n - 1)) + (n - 1)
    }
}

/// The Novatek checksum of `s`: the sum over its `len / 2` whole words,
/// truncated to 16 bits. A trailing odd byte is ignored.
pub open spec fn spec_nvt_chksum(s: Seq<u8>) -> u16 {
    (word_sum(s, s.len() / 2) % 0x10000) as u16
}

/// A region is accepted by the bootloader when its checksum is zero.
pub open spec fn spec_is_valid(s: Seq<u8>) -> bool {
    spec_nvt_chksum(s) == 0
}

/// `s` with the two bytes at `slot` replaced by the little-endian word `w`.
pub open spec fn put_le16(s: Seq<u8>, slot: int, w: u16) -> Seq<u8> {
    s.update(slot, (w % 256) as u8).update(slot + 1, (w / 256) as u8)
}

/// The 16-bit two's-complement negation of `c`.
pub open spec fn neg16(c: u16) -> u16 {
    ((0x10000 - c) % 0x10000) as u16
}

/// The word that `solve` stores at `slot` of `s`.
pub open spec fn spec_solve_word(s: Seq<u8>, slot: int) -> u16 {
    neg16(spec_nvt_chksum(put_le16(s, slot, 0)))
}

/// What `solve` leaves in the region.
pub open spec fn spec_solved(s: Seq<u8>, slot: int) -> Seq<u8> {
    put_le16(s, slot, spec_solve_word(s, slot))
}

/// Reducing the running sum and the index modulo 2^16 before adding does
/// not change the sum modulo 2^16.
proof fn lemma_mod_step(ws: int, w: int, i: int)
    ensures
        (ws % 0x10000 + w + i % 0x10000) % 0x10000 == (ws + w + i) % 0x10000,
{
    lemma_add_mod_noop(ws % 0x10000 + w, i, 0x10000);
    lemma_add_mod_noop(ws + w, i, 0x10000);
    lemma_add_mod_noop(ws % 0x10000, w, 0x10000);
    lemma_add_mod_noop(ws, w, 0x10000);
    vstd::arithmetic::div_mod::lemma_mod_twice(ws, 0x10000);
}

/// Novatek 16-bit checksum over `data` (sum of `u16[i] + i`, truncated).
pub fn nvt_chksum(data: &[u8]) -> (c: u16)
    ensures
        c == spec_nvt_chksum(data@),
{
    let len = data.len();
    let n = len / 2;
    let mut sum: u32 = 0;
    let mut i: usize = 0;
    while i < n
        invariant
            len == data@.len(),
            n == len / 2,
            i <= n,
            sum < 0x10000,
            sum as int == word_sum(data@, i as nat) % 0x10000,
        decreases n - i,
    {
        let w: u32 = data[2 * i] as u32 + 256 * (data[2 * i + 1] as u32);
        let k: u32 = (i % 0x10000) as u32;
        proof {
            assert(word_sum(data@, (i + 1) as nat) == word_sum(data@, i as nat) + w + i);
            lemma_mod_step(word_sum(data@, i as nat), w as int, i as int);
        }
        sum = (sum + w + k) % 0x10000;
        i = i + 1;
    }
    sum as u16
}

/// A region is accepted by the bootloader when its checksum is zero.
pub fn is_valid(data: &[u8]) -> (b: bool)
    ensures
        b == spec_is_valid(data@),
{
    nvt_chksum(data) == 0
}


/// Rewriting one whole word of a region moves its unbounded sum by the
/// difference between the new word and the old one.
proof fn lemma_word_sum_put(s: Seq<u8>, k: int, w: u16, n: nat)
    requires
        0 <= k,
        2 * k + 1 < s.len(),
        2 * n <= s.len(),
    ensures
        word_sum(put_le16(s, 2 * k, w), n) == if k < n {
            word_sum(s, n) - le16(s, 2 * k) + (w % 256) + 256 * (w / 256)
        } else {
            word_sum(s, n)
        },
    decreases n,
{
    let t = put_le16(s, 2 * k, w);
    if n > 0 {
        lemma_word_sum_put(s, k, w, (n - 1) as nat);
        let j = n - 1;
        if j != k {
            assert(le16(t, 2 * j) == le16(s, 2 * j));
        } else {
            assert(le16(t, 2 * j) == (w % 256) + 256 * (w / 256));
        }
    }
}

/// Solving an aligned slot leaves a region the bootloader accepts.
pub proof fn lemma_solved_is_valid(s: Seq<u8>, slot: int)
    requires
        0 <= slot,
        slot % 2 == 0,
        slot + 1 < s.len(),
    ensures
        spec_is_valid(spec_solved(s, slot)),
{
    let z = put_le16(s, slot, 0);
    let v = spec_solve_word(s, slot);
    let n = s.len() / 2;
    let k = slot / 2;
    assert(put_le16(z, slot, v) =~= spec_solved(s, slot));
    assert(le16(z, slot) == 0);
    lemma_word_sum_put(z, k, v, n);
    assert(v as int == (v % 256) + 256 * (v / 256));
    let ws = word_sum(z, n);
    assert(word_sum(spec_solved(s, slot), n) == ws + v);
    let c = ws % 0x10000;
    assert(v as int == (0x10000 - c) % 0x10000);
    lemma_add_mod_noop(ws, v as int, 0x10000);
    vstd::arithmetic::div_mod::lemma_mod_twice(0x10000 - c, 0x10000);
    lemma_add_mod_noop(c, 0x10000 - c, 0x10000);
    assert((c + v) % 0x10000 == 0) by {
        lemma_add_mod_noop(c, 0x10000 - c, 0x10000);
        vstd::arithmetic::div_mod::lemma_mod_twice(c, 0x10000);
    }
}

/// Solving a region that the bootloader already accepts changes nothing.
pub proof fn lemma_solve_valid_is_identity(s: Seq<u8>, slot: int)
    requires
        0 <= slot,
        slot % 2 == 0,
        slot + 1 < s.len(),
        spec_is_valid(s),
    ensures
        spec_solved(s, slot) == s,
        spec_solve_word(s, slot) as int == le16(s, slot),
{
    let z = put_le16(s, slot, 0);
    let n = s.len() / 2;
    let k = slot / 2;
    let old_w = le16(s, slot);
    assert(put_le16(z, slot, old_w as u16) =~= s);
    lemma_word_sum_put(z, k, old_w as u16, n);
    assert(le16(z, slot) == 0);
    let ws = word_sum(z, n);
    assert(word_sum(s, n) == ws + old_w);
    assert((ws + old_w) % 0x10000 == 0);
    let c = ws % 0x10000;
    lemma_add_mod_noop(ws, old_w, 0x10000);
    vstd::arithmetic::div_mod::lemma_mod_twice(old_w, 0x10000);
    assert((c + old_w) % 0x10000 == 0);
    assert(c + old_w == 0 || c + old_w == 0x10000);
    assert(spec_solve_word(s, slot) as int == old_w);
}

/// Solving the same slot twice gives what solving it once gave.
pub proof fn lemma_solve_idempotent(s: Seq<u8>, slot: int)
    requires
        0 <= slot,
        slot % 2 == 0,
        slot + 1 < s.len(),
    ensures
        spec_solved(spec_solved(s, slot), slot) == spec_solved(s, slot),
{
    lemma_solved_is_valid(s, slot);
    lemma_solve_valid_is_identity(spec_solved(s, slot), slot);
}

/// Store in the 16-bit corrective slot at `slot` (a byte offset into `data`)
/// the word that makes `nvt_chksum(data) == 0` when `slot` is 2-byte aligned.
///
/// The slot is zeroed first, so this is idempotent.
pub fn solve(data: &mut Vec<u8>, slot: usize) -> (v: u16)
    requires
        slot + 1 < old(data)@.len(),
    ensures
        v == spec_solve_word(old(data)@, slot as int),
        final(data)@ == spec_solved(old(data)@, slot as int),
        slot % 2 == 0 ==> spec_is_valid(final(data)@),
{
    let ghost s = data@;
    let _len = data.len();  // bounds the length by usize::MAX for `slot + 1`
    data.set(slot, 0);
    data.set(slot + 1, 0);
    assert(data@ =~= put_le16(s, slot as int, 0));
    let c = nvt_chksum(data.as_slice());
    let v: u16 = ((0x10000u32 - c as u32) % 0x10000) as u16;
    data.set(slot, (v % 256) as u8);
    data.set(slot + 1, (v / 256) as u8);
    proof {
        assert(data@ =~= spec_solved(s, slot as int));
        if slot % 2 == 0 {
            lemma_solved_is_valid(s, slot as int);
        }
    }
    v
}

} // verus!
