//! Text built from bytes: hex dumps, decimal numbers, and the decoding of the
//! fixed-width, NUL-padded strings that firmware headers carry.

use vstd::prelude::*;

verus! {

/// What `String::from_utf8_lossy` makes of `bytes`.
pub uninterp spec fn utf8_lossy(bytes: Seq<u8>) -> Seq<char>;

/// What `str::trim` leaves of `s`.
pub uninterp spec fn trimmed(s: Seq<char>) -> Seq<char>;

/// `String::push`: appends one character.
#[verifier::external_body]
pub(crate) fn push_char(s: &mut String, c: char)
    ensures
        final(s)@ == old(s)@.push(c),
{
    s.push(c);
}

/// `String::push_str`: appends a string slice.
#[verifier::external_body]
pub(crate) fn push_str(s: &mut String, t: &str)
    ensures
        final(s)@ == old(s)@ + t@,
{
    s.push_str(t);
}

/// `String::from_utf8_lossy`, owned. The result depends on the bytes alone;
/// bytes that are valid UTF-8 decode unchanged, as the standard library
/// documents. How invalid sequences are replaced is left unsaid.
#[verifier::external_body]
pub(crate) fn utf8_lossy_string(bytes: &[u8]) -> (s: String)
    ensures
        s@ == utf8_lossy(bytes@),
        vstd::utf8::valid_utf8(bytes@) ==> s@ == vstd::utf8::decode_utf8(bytes@),
{
    String::from_utf8_lossy(bytes).into_owned()
}

/// An ASCII letter or digit, which Unicode does not count as whitespace.
pub open spec fn is_ascii_alnum(c: char) -> bool {
    ('0' <= c <= '9') || ('a' <= c <= 'z') || ('A' <= c <= 'Z')
}

/// `str::trim`: the text with leading and trailing whitespace removed. The
/// result depends on the text alone, and text that is empty or starts and
/// ends with an ASCII letter or digit has nothing to remove; beyond that,
/// which characters count as whitespace (Unicode's `White_Space`) is left
/// unsaid.
#[verifier::external_body]
pub(crate) fn trim_str(s: &str) -> (t: &str)
    ensures
        t@ == trimmed(s@),
        s@.len() == 0 || (is_ascii_alnum(s@[0]) && is_ascii_alnum(s@.last())) ==> t@ == s@,
{
    s.trim()
}

/// The upper-case hex digit for `d < 16`.
pub open spec fn hex_digit(d: int) -> char {
    if d < 10 {
        (('0' as int) + d) as char
    } else {
        (('A' as int) + d - 10) as char
    }
}

/// Two upper-case hex digits per byte, in order.
pub open spec fn spec_hex(s: Seq<u8>) -> Seq<char>
    decreases s.len(),
{
    if s.len() == 0 {
        Seq::empty()
    } else {
        let b = s.last();
        spec_hex(s.drop_last()) + seq![hex_digit((b / 16) as int), hex_digit((b % 16) as int)]
    }
}

/// The decimal digits of `n`, most significant first, without leading zeros.
pub open spec fn spec_decimal(n: nat) -> Seq<char>
    decreases n,
{
    if n < 10 {
        seq![(('0' as int) + n) as char]
    } else {
        spec_decimal(n / 10).push((('0' as int) + n % 10) as char)
    }
}

/// The decimal digits of `n`, zero-padded to at least two.
pub open spec fn spec_decimal2(n: nat) -> Seq<char> {
    if n < 10 {
        seq!['0'].push((('0' as int) + n) as char)
    } else {
        spec_decimal(n)
    }
}

/// The lower-case hex digit for `d < 16`.
pub open spec fn hex_digit_lower(d: int) -> char {
    if d < 10 {
        (('0' as int) + d) as char
    } else {
        (('a' as int) + d - 10) as char
    }
}

/// The lower-case hex digits of `n`, without leading zeros.
pub open spec fn spec_hex_lower(n: nat) -> Seq<char>
    decreases n,
{
    if n < 16 {
        seq![hex_digit_lower(n as int)]
    } else {
        spec_hex_lower(n / 16).push(hex_digit_lower((n % 16) as int))
    }
}

/// The upper-case hex digits of `n`, without leading zeros.
pub open spec fn spec_hex_upper(n: nat) -> Seq<char>
    decreases n,
{
    if n < 16 {
        seq![hex_digit(n as int)]
    } else {
        spec_hex_upper(n / 16).push(hex_digit((n % 16) as int))
    }
}

/// `k` zero digits.
pub open spec fn zero_digits(k: nat) -> Seq<char> {
    Seq::new(k, |i: int| '0')
}

/// The lower-case hex digits of `n`, zero-padded to at least `w`.
pub open spec fn spec_hex_lower_pad(n: nat, w: nat) -> Seq<char> {
    let d = spec_hex_lower(n);
    if d.len() < w {
        zero_digits((w - d.len()) as nat) + d
    } else {
        d
    }
}

/// Index of the first NUL byte of `s` at or after `i`, or `s.len()`.
pub open spec fn find_nul(s: Seq<u8>, i: int) -> int
    decreases s.len() - i,
{
    if i >= s.len() {
        s.len() as int
    } else if s[i] == 0 {
        i
    } else {
        find_nul(s, i + 1)
    }
}

/// The bytes of `s` before its first NUL.
pub open spec fn until_nul(s: Seq<u8>) -> Seq<u8> {
    s.subrange(0, find_nul(s, 0))
}

/// The first NUL at or after `i` is at `k` when `s[i..k]` has none and
/// `s[k]` is one.
pub proof fn lemma_find_nul_at(s: Seq<u8>, i: int, k: int)
    requires
        0 <= i <= k < s.len(),
        s[k] == 0,
        forall|j: int| i <= j < k ==> s[j] != 0,
    ensures
        find_nul(s, i) == k,
    decreases k - i,
{
    if i < k {
        lemma_find_nul_at(s, i + 1, k);
    }
}

fn hex_char(d: u8) -> (c: char)
    requires
        d < 16,
    ensures
        c == hex_digit(d as int),
{
    if d < 10 {
        ((48u8 + d) as char)
    } else {
        ((65u8 + d - 10) as char)
    }
}

/// Upper-case hex dump of `b`, two digits per byte.
pub fn hex(b: &[u8]) -> (s: String)
    ensures
        s@ == spec_hex(b@),
{
    let mut s = String::new();
    let n = b.len();
    let mut i: usize = 0;
    while i < n
        invariant
            n == b@.len(),
            i <= n,
            s@ == spec_hex(b@.subrange(0, i as int)),
        decreases n - i,
    {
        let x = b[i];
        push_char(&mut s, hex_char(x / 16));
        push_char(&mut s, hex_char(x % 16));
        proof {
            let t = b@.subrange(0, i + 1);
            assert(t.drop_last() =~= b@.subrange(0, i as int));
            assert(t.last() == x);
        }
        i = i + 1;
    }
    assert(b@.subrange(0, n as int) =~= b@);
    s
}

/// Append the decimal digits of `n`.
pub fn push_decimal(s: &mut String, n: u32)
    ensures
        final(s)@ == old(s)@ + spec_decimal(n as nat),
    decreases n,
{
    if n >= 10 {
        push_decimal(s, n / 10);
    }
    push_char(s, ((48u8 + (n % 10) as u8) as char));
    assert(final(s)@ =~= old(s)@ + spec_decimal(n as nat));
}

fn hex_char_lower(d: u64) -> (c: char)
    requires
        d < 16,
    ensures
        c == hex_digit_lower(d as int),
{
    if d < 10 {
        ((48u8 + d as u8) as char)
    } else {
        ((97u8 + d as u8 - 10) as char)
    }
}

/// Append the lower-case hex digits of `n`.
pub fn push_hex_lower(s: &mut String, n: u64)
    ensures
        final(s)@ == old(s)@ + spec_hex_lower(n as nat),
    decreases n,
{
    if n >= 16 {
        push_hex_lower(s, n / 16);
    }
    push_char(s, hex_char_lower(n % 16));
    assert(final(s)@ =~= old(s)@ + spec_hex_lower(n as nat));
}

/// How many hex digits `n` has.
fn hex_len(n: u64) -> (k: usize)
    ensures
        k == spec_hex_lower(n as nat).len(),
        1 <= k <= 16,
    decreases n,
{
    if n < 16 {
        1
    } else {
        let k = hex_len(n / 16);
        assert(k < 16) by {
            lemma_hex_lower_len(n as nat);
        }
        k + 1
    }
}

/// 16 to the power `k`.
pub open spec fn pow16(k: nat) -> nat
    decreases k,
{
    if k == 0 {
        1
    } else {
        16 * pow16((k - 1) as nat)
    }
}

proof fn lemma_hex_lower_len_bound(n: nat, k: nat)
    requires
        k >= 1,
        n < pow16(k),
    ensures
        spec_hex_lower(n).len() <= k,
    decreases n,
{
    if n >= 16 {
        let p = pow16((k - 1) as nat);
        if k == 1 {
            assert(pow16(1) == 16) by {
                reveal_with_fuel(pow16, 2);
            }
        }
        assert(k >= 2);
        assert(n / 16 < p) by (nonlinear_arith)
            requires
                n < 16 * p,
        ;
        lemma_hex_lower_len_bound(n / 16, (k - 1) as nat);
    }
}

proof fn lemma_hex_lower_len(n: nat)
    requires
        16 <= n <= u64::MAX,
    ensures
        spec_hex_lower(n / 16).len() < 16,
{
    assert(pow16(16) == 0x1_0000_0000_0000_0000) by {
        reveal_with_fuel(pow16, 17);
    }
    lemma_hex_lower_len_bound(n, 16);
}

/// Append the lower-case hex digits of `n`, zero-padded to at least `w`.
pub fn push_hex_lower_pad(s: &mut String, n: u64, w: usize)
    ensures
        final(s)@ == old(s)@ + spec_hex_lower_pad(n as nat, w as nat),
{
    let k = hex_len(n);
    if k < w {
        let mut i: usize = 0;
        while i < w - k
            invariant
                i <= w - k,
                k < w,
                s@ == old(s)@ + zero_digits(i as nat),
            decreases w - k - i,
        {
            push_char(s, '0');
            i = i + 1;
            assert(s@ =~= old(s)@ + zero_digits(i as nat));
        }
    }
    push_hex_lower(s, n);
    assert(final(s)@ =~= old(s)@ + spec_hex_lower_pad(n as nat, w as nat));
}

/// Append the decimal digits of `n`, zero-padded to at least two.
pub fn push_decimal2(s: &mut String, n: u32)
    ensures
        final(s)@ == old(s)@ + spec_decimal2(n as nat),
{
    if n < 10 {
        push_char(s, '0');
    }
    push_decimal(s, n);
    assert(final(s)@ =~= old(s)@ + spec_decimal2(n as nat));
}

/// The characters of `s`.
pub fn str_chars(s: &str) -> (v: Vec<char>)
    ensures
        v@ == s@,
{
    broadcast use vstd::string::group_string_axioms;
    let mut v: Vec<char> = Vec::new();
    for c in it: s.chars()
        invariant
            v@.len() == it.index(),
            forall|i: int| 0 <= i < v@.len() ==> v@[i] == it.seq()[i],
    {
        v.push(c);
    }
    assert(v@ =~= s@);
    v
}

/// Length of the NUL-terminated prefix of `b`.
pub fn nul_terminated_len(b: &[u8]) -> (n: usize)
    ensures
        n == find_nul(b@, 0),
        n <= b@.len(),
{
    let mut i: usize = 0;
    while i < b.len()
        invariant
            i <= b@.len(),
            find_nul(b@, 0) == find_nul(b@, i as int),
        decreases b@.len() - i,
    {
        if b[i] == 0 {
            return i;
        }
        i = i + 1;
    }
    i
}

} // verus!
