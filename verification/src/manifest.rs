//! The editable description of a split firmware: which partitions to pack,
//! in which order, from which files, and how each one is wrapped.
//!
//! The TOML form of these types lives with the program; here are the values
//! themselves and the checks a manifest must pass before it is packed.

use vstd::prelude::*;
use crate::text::{
    is_ascii_alnum, push_hex_lower, push_hex_lower_pad, push_str, spec_hex_lower,
    spec_decimal, spec_hex_lower_pad, spec_hex_upper, str_chars, trim_str, trimmed, zero_digits,
};

verus! {

/// How a partition's file is wrapped when packing.
#[derive(Debug, Clone, Copy, PartialEq, Eq, Structural)]
pub enum Container {
    /// The file is the complete partition, byte for byte.
    Raw,
    /// The file is the payload; a 0x40-byte CKSM header is prepended on pack.
    Cksm,
    /// The file is the payload; a 0x40-byte legacy uImage header is prepended.
    Uimage,
}

/// Image-wide settings.
#[derive(Debug, Clone)]
pub struct Firmware {
    /// Source image this manifest was produced from (informational).
    pub source: String,
    pub version: u32,
    /// Offset of the partition table; also the size of the fixed header.
    pub header_size: u32,
    pub chksum_method: u32,
    /// Partition start alignment, in bytes, measured from the first partition
    /// offset (`header_size + 12 * partition_count`).
    pub align: u64,
}

/// The CKSM header fields kept for a `cksm` partition.
#[derive(Debug, Clone, Copy, PartialEq, Eq)]
pub struct Cksm {
    pub version: u32,
    pub field_08: u32,
    pub data_offset: u32,
    pub field_18: u32,
    pub field_1c: u32,
}

/// The uImage header fields kept for a `uimage` partition.
#[derive(Debug, Clone)]
pub struct UImage {
    pub name: String,
    pub time: u32,
    pub load: u32,
    pub entry: u32,
    pub os: u8,
    pub arch: u8,
    pub img_type: u8,
    pub comp: u8,
}

/// One partition of the image, in packing order.
#[derive(Debug, Clone)]
pub struct Partition {
    pub id: u32,
    /// Informational; taken from the device tree `nvtpack/index` node.
    pub name: String,
    /// Path of the payload, relative to the manifest.
    pub file: String,
    pub container: Container,
    /// For `raw` partitions carrying a Novatek build tag: byte offset of the
    /// tag, whose corrective checksum word is re-solved on pack.
    pub nvt_tag_offset: Option<u32>,
    pub cksm: Option<Cksm>,
    pub uimage: Option<UImage>,
}

/// The whole manifest.
#[derive(Debug, Clone)]
pub struct Manifest {
    pub firmware: Firmware,
    pub partitions: Vec<Partition>,
}

/// Why a manifest cannot be packed.
#[derive(Debug, Clone)]
pub enum ManifestError {
    NoPartitions,
    /// `firmware.align` is not a power of two.
    BadAlign { align: u64 },
    /// A `cksm` partition without its CKSM table.
    MissingCksm { id: u32, name: String },
    /// A `uimage` partition without its uImage table.
    MissingUimage { id: u32, name: String },
}

/// `x` is a power of two (1, 2, 4, ...).
pub open spec fn spec_is_pow2(x: nat) -> bool
    decreases x,
{
    if x == 1 {
        true
    } else if x < 2 || x % 2 != 0 {
        false
    } else {
        spec_is_pow2(x / 2)
    }
}

/// The container of `p` has the header table it needs.
pub open spec fn spec_partition_complete(p: Partition) -> bool {
    &&& p.container == Container::Cksm ==> p.cksm is Some
    &&& p.container == Container::Uimage ==> p.uimage is Some
}

/// Whether `x` is a power of two.
pub fn is_power_of_two(x: u64) -> (b: bool)
    ensures
        b == spec_is_pow2(x as nat),
{
    let mut y = x;
    while y >= 2 && y % 2 == 0
        invariant
            spec_is_pow2(y as nat) == spec_is_pow2(x as nat),
        decreases y,
    {
        y = y / 2;
    }
    y == 1
}

/// Index of the first partition from `i` on whose container lacks its
/// header table, or the number of partitions.
pub open spec fn spec_first_incomplete(ps: Seq<Partition>, i: int) -> int
    decreases ps.len() - i,
{
    if i >= ps.len() {
        ps.len() as int
    } else if !spec_partition_complete(ps[i]) {
        i
    } else {
        spec_first_incomplete(ps, i + 1)
    }
}

/// What `Manifest::validate` answers for `m`.
pub open spec fn spec_validate(m: Manifest) -> Result<(), ManifestError> {
    let ps = m.partitions@;
    let k = spec_first_incomplete(ps, 0);
    if ps.len() == 0 {
        Err(ManifestError::NoPartitions)
    } else if !spec_is_pow2(m.firmware.align as nat) {
        Err(ManifestError::BadAlign { align: m.firmware.align })
    } else if k < ps.len() {
        if ps[k].container == Container::Cksm {
            Err(ManifestError::MissingCksm { id: ps[k].id, name: ps[k].name })
        } else {
            Err(ManifestError::MissingUimage { id: ps[k].id, name: ps[k].name })
        }
    } else {
        Ok(())
    }
}

/// Every partition has the header table its container needs.
pub proof fn lemma_all_complete(ps: Seq<Partition>)
    requires
        spec_first_incomplete(ps, 0) == ps.len(),
    ensures
        forall|i: int| 0 <= i < ps.len() ==> spec_partition_complete(#[trigger] ps[i]),
{
    assert forall|i: int| 0 <= i < ps.len() implies spec_partition_complete(#[trigger] ps[i]) by {
        lemma_first_incomplete_skips(ps, 0, i);
    }
}

proof fn lemma_first_incomplete_skips(ps: Seq<Partition>, i: int, k: int)
    requires
        0 <= i <= k < ps.len(),
        spec_first_incomplete(ps, i) == ps.len(),
    ensures
        spec_partition_complete(ps[k]),
    decreases k - i,
{
    if i < k {
        lemma_first_incomplete_skips(ps, i + 1, k);
    }
}

impl Manifest {
    /// The checks a manifest must pass before it is packed: at least one
    /// partition, a power-of-two alignment, and for each `cksm` or `uimage`
    /// partition the header table it needs (the first offender is named).
    pub fn validate(&self) -> (r: Result<(), ManifestError>)
        ensures
            r == spec_validate(*self),
            r is Ok ==> forall|i: int|
                0 <= i < self.partitions@.len() ==> spec_partition_complete(
                    #[trigger] self.partitions@[i],
                ),
    {
        if self.partitions.len() == 0 {
            return Err(ManifestError::NoPartitions);
        }
        if self.firmware.align == 0 || !is_power_of_two(self.firmware.align) {
            return Err(ManifestError::BadAlign { align: self.firmware.align });
        }
        let mut i: usize = 0;
        while i < self.partitions.len()
            invariant
                i <= self.partitions@.len(),
                self.partitions@.len() > 0,
                spec_is_pow2(self.firmware.align as nat),
                spec_first_incomplete(self.partitions@, 0) == spec_first_incomplete(
                    self.partitions@,
                    i as int,
                ),
            decreases self.partitions@.len() - i,
        {
            let p = &self.partitions[i];
            match p.container {
                Container::Cksm => {
                    if p.cksm.is_none() {
                        return Err(ManifestError::MissingCksm { id: p.id, name: p.name.clone() });
                    }
                },
                Container::Uimage => {
                    if p.uimage.is_none() {
                        return Err(
                            ManifestError::MissingUimage { id: p.id, name: p.name.clone() },
                        );
                    }
                },
                Container::Raw => {},
            }
            i = i + 1;
        }
        proof {
            lemma_all_complete(self.partitions@);
        }
        Ok(())
    }
}


/// Why a manifest number field does not read as a `u32`.
#[derive(Debug, Clone, Copy, PartialEq, Eq)]
pub enum IntError {
    /// Nothing to parse.
    Empty,
    /// A character that is not a digit of the radix.
    InvalidDigit,
    /// The number does not fit in 32 bits.
    PosOverflow,
}

/// The value of `c` as a digit of `radix` (10 or 16; either letter case).
pub open spec fn spec_digit(c: char, radix: nat) -> Option<nat> {
    if '0' <= c <= '9' {
        Some((c as nat - '0' as nat) as nat)
    } else if radix == 16 && 'a' <= c <= 'f' {
        Some((c as nat - 'a' as nat + 10) as nat)
    } else if radix == 16 && 'A' <= c <= 'F' {
        Some((c as nat - 'A' as nat + 10) as nat)
    } else {
        None
    }
}

/// Reading the digits `d` on from the value `acc`: the first non-digit, or
/// the first digit that takes the value past 32 bits, stops it.
pub open spec fn spec_digits(d: Seq<char>, radix: nat, acc: nat) -> Result<u32, IntError>
    decreases d.len(),
{
    if d.len() == 0 {
        Ok(acc as u32)
    } else {
        match spec_digit(d[0], radix) {
            None => Err(IntError::InvalidDigit),
            Some(x) => if acc * radix + x > u32::MAX {
                Err(IntError::PosOverflow)
            } else {
                spec_digits(d.drop_first(), radix, acc * radix + x)
            },
        }
    }
}

/// An unsigned integer in `radix`: an optional leading `+`, then digits.
pub open spec fn spec_from_str_radix(s: Seq<char>, radix: nat) -> Result<u32, IntError> {
    if s.len() == 0 {
        Err(IntError::Empty)
    } else if s.len() == 1 && (s[0] == '+' || s[0] == '-') {
        Err(IntError::InvalidDigit)
    } else if s[0] == '+' {
        spec_digits(s.drop_first(), radix, 0)
    } else {
        spec_digits(s, radix, 0)
    }
}

/// A number field of the manifest once trimmed: hex after a `0x` or `0X`
/// prefix, else decimal.
pub open spec fn spec_parse_trimmed(t: Seq<char>) -> Result<u32, IntError> {
    if t.len() >= 2 && t[0] == '0' && (t[1] == 'x' || t[1] == 'X') {
        spec_from_str_radix(t.skip(2), 16)
    } else {
        spec_from_str_radix(t, 10)
    }
}

fn digit(c: char, radix: u32) -> (r: Option<u32>)
    requires
        radix == 10 || radix == 16,
    ensures
        match r {
            None => spec_digit(c, radix as nat) is None,
            Some(x) => spec_digit(c, radix as nat) == Some(x as nat) && x < radix,
        },
{
    if '0' <= c && c <= '9' {
        Some(c as u32 - '0' as u32)
    } else if radix == 16 && 'a' <= c && c <= 'f' {
        Some(c as u32 - 'a' as u32 + 10)
    } else if radix == 16 && 'A' <= c && c <= 'F' {
        Some(c as u32 - 'A' as u32 + 10)
    } else {
        None
    }
}

/// Unsigned integer in `radix` from the characters `d[start..]`, with the
/// standard library's rules for `u32::from_str_radix`.
fn from_str_radix(d: &Vec<char>, start: usize, radix: u32) -> (r: Result<u32, IntError>)
    requires
        start <= d@.len(),
        radix == 10 || radix == 16,
    ensures
        r == spec_from_str_radix(d@.skip(start as int), radix as nat),
{
    let n = d.len();
    let ghost s = d@.skip(start as int);
    if start == n {
        return Err(IntError::Empty);
    }
    if n - start == 1 && (d[start] == '+' || d[start] == '-') {
        return Err(IntError::InvalidDigit);
    }
    let mut i = start;
    if d[start] == '+' {
        i = start + 1;
        assert(d@.skip(i as int) =~= s.drop_first());
    } else {
        assert(d@.skip(i as int) =~= s);
    }
    let mut acc: u32 = 0;
    while i < n
        invariant
            start <= i <= n,
            n == d@.len(),
            radix == 10 || radix == 16,
            s == d@.skip(start as int),
            spec_from_str_radix(s, radix as nat) == spec_digits(
                d@.skip(i as int),
                radix as nat,
                acc as nat,
            ),
        decreases n - i,
    {
        let ghost rest = d@.skip(i as int);
        assert(rest[0] == d@[i as int]);
        assert(rest.drop_first() =~= d@.skip(i + 1));
        match digit(d[i], radix) {
            None => {
                return Err(IntError::InvalidDigit);
            },
            Some(x) => {
                let wide: u64 = acc as u64 * radix as u64 + x as u64;
                if wide > 0xFFFF_FFFF {
                    return Err(IntError::PosOverflow);
                }
                acc = wide as u32;
            },
        }
        i = i + 1;
    }
    Ok(acc)
}

/// Read a number field of the manifest: surrounding whitespace trimmed,
/// then hex after a `0x` or `0X` prefix, else decimal (see
/// [`spec_parse_trimmed`]). Text that starts and ends with a letter or digit
/// has nothing to trim.
pub fn parse_u32_field(s: &str) -> (r: Result<u32, IntError>)
    ensures
        r == spec_parse_trimmed(trimmed(s@)),
        s@.len() == 0 || (is_ascii_alnum(s@[0]) && is_ascii_alnum(s@.last())) ==> r
            == spec_parse_trimmed(s@),
{
    let t = trim_str(s);
    let d = str_chars(t);
    if d.len() >= 2 && d[0] == '0' && (d[1] == 'x' || d[1] == 'X') {
        from_str_radix(&d, 2, 16)
    } else {
        assert(d@.skip(0) =~= d@);
        from_str_radix(&d, 0, 10)
    }
}


/// A `u32` as the manifest writes it where the field is kept in hex:
/// `0x` and the lower-case hex digits, zero-padded to `width`.
pub open spec fn spec_hex_text(v: u32, width: nat) -> Seq<char> {
    seq!['0', 'x'] + spec_hex_lower_pad(v as nat, width)
}

/// `0x` followed by the lower-case hex digits of `v`, zero-padded to
/// `width` (the manifest writes versions and load addresses with width 8,
/// build tag offsets with no padding).
pub fn hex_text(v: u32, width: usize) -> (s: String)
    ensures
        s@ == spec_hex_text(v, width as nat),
{
    let mut s = String::new();
    crate::text::push_char(&mut s, '0');
    crate::text::push_char(&mut s, 'x');
    push_hex_lower_pad(&mut s, v as u64, width);
    assert(s@ =~= spec_hex_text(v, width as nat));
    s
}

proof fn lemma_digits_hex_lower(n: nat, rest: Seq<char>, acc: nat)
    requires
        n <= u32::MAX,
        acc == 0,
    ensures
        spec_digits(spec_hex_lower(n) + rest, 16, acc) == spec_digits(rest, 16, n),
    decreases n,
{
    let d = spec_hex_lower(n);
    if n < 16 {
        assert((d + rest).drop_first() =~= rest);
    } else {
        let c = crate::text::hex_digit_lower((n % 16) as int);
        assert(d + rest =~= spec_hex_lower(n / 16) + (seq![c] + rest));
        lemma_digits_hex_lower(n / 16, seq![c] + rest, acc);
        assert((seq![c] + rest).drop_first() =~= rest);
        assert((n / 16) * 16 + n % 16 == n);
    }
}

proof fn lemma_digits_zeros(k: nat, rest: Seq<char>)
    ensures
        spec_digits(zero_digits(k) + rest, 16, 0) == spec_digits(rest, 16, 0),
    decreases k,
{
    if k > 0 {
        assert((zero_digits(k) + rest).drop_first() =~= zero_digits((k - 1) as nat) + rest);
        lemma_digits_zeros((k - 1) as nat, rest);
    }
}

proof fn lemma_hex_lower_shape(n: nat)
    ensures
        spec_hex_lower(n).len() >= 1,
        is_ascii_alnum(spec_hex_lower(n).last()),
        is_ascii_alnum(spec_hex_lower(n)[0]),
    decreases n,
{
    if n >= 16 {
        lemma_hex_lower_shape(n / 16);
    }
}

proof fn lemma_digits_hex_upper(n: nat, rest: Seq<char>)
    requires
        n <= u32::MAX,
    ensures
        spec_digits(spec_hex_upper(n) + rest, 16, 0) == spec_digits(rest, 16, n),
    decreases n,
{
    let d = spec_hex_upper(n);
    if n < 16 {
        assert((d + rest).drop_first() =~= rest);
    } else {
        let c = crate::text::hex_digit((n % 16) as int);
        assert(d + rest =~= spec_hex_upper(n / 16) + (seq![c] + rest));
        lemma_digits_hex_upper(n / 16, seq![c] + rest);
        assert((seq![c] + rest).drop_first() =~= rest);
        assert((n / 16) * 16 + n % 16 == n);
    }
}

proof fn lemma_hex_upper_shape(n: nat)
    ensures
        spec_hex_upper(n).len() >= 1,
        is_ascii_alnum(spec_hex_upper(n).last()),
    decreases n,
{
    if n >= 16 {
        lemma_hex_upper_shape(n / 16);
    }
}

/// Hex digits are read in either letter case: `a`..`f` and `A`..`F` both
/// stand for ten to fifteen.
pub proof fn lemma_hex_letters(c: char)
    ensures
        'A' <= c <= 'F' ==> spec_digit(c, 16) == Some((10 + (c as int - 'A' as int)) as nat),
        'a' <= c <= 'f' ==> spec_digit(c, 16) == Some((10 + (c as int - 'a' as int)) as nat),
{
}

/// A `0x` or `0X` prefix followed by the hex digits of any `u32` `v`, in
/// upper or lower case and after any number of leading zeros, needs no
/// trimming and reads as `v`.
pub proof fn lemma_hex_any_case_parses(v: u32, x: char, k: nat)
    requires
        x == 'x' || x == 'X',
    ensures
        ({
            let t = seq!['0', x] + zero_digits(k) + spec_hex_upper(v as nat);
            &&& is_ascii_alnum(t[0])
            &&& is_ascii_alnum(t.last())
            &&& spec_parse_trimmed(t) == Ok::<u32, IntError>(v)
        }),
        ({
            let t = seq!['0', x] + zero_digits(k) + spec_hex_lower(v as nat);
            &&& is_ascii_alnum(t[0])
            &&& is_ascii_alnum(t.last())
            &&& spec_parse_trimmed(t) == Ok::<u32, IntError>(v)
        }),
{
    let du = spec_hex_upper(v as nat);
    let dl = spec_hex_lower(v as nat);
    lemma_hex_upper_shape(v as nat);
    lemma_hex_lower_shape(v as nat);
    let tu = seq!['0', x] + zero_digits(k) + du;
    let tl = seq!['0', x] + zero_digits(k) + dl;
    assert(tu.last() == du.last());
    assert(tl.last() == dl.last());
    assert(tu.skip(2) =~= zero_digits(k) + du);
    assert(tl.skip(2) =~= zero_digits(k) + dl);
    lemma_digits_hex_upper(v as nat, Seq::empty());
    lemma_digits_hex_lower(v as nat, Seq::empty(), 0);
    assert(du + Seq::<char>::empty() =~= du);
    assert(dl + Seq::<char>::empty() =~= dl);
    lemma_digits_zeros(k, du);
    lemma_digits_zeros(k, dl);
    if k == 0 {
        assert(zero_digits(k) + du =~= du);
        assert(zero_digits(k) + dl =~= dl);
    } else {
        assert((zero_digits(k) + du)[0] == '0');
        assert((zero_digits(k) + dl)[0] == '0');
    }
}

proof fn lemma_digits_decimal(n: nat, rest: Seq<char>)
    requires
        n <= u32::MAX,
    ensures
        spec_digits(spec_decimal(n) + rest, 10, 0) == spec_digits(rest, 10, n),
        spec_decimal(n).len() >= 1,
        '0' <= spec_decimal(n)[0] <= '9',
        '0' <= spec_decimal(n).last() <= '9',
        n >= 10 ==> spec_decimal(n)[0] != '0',
    decreases n,
{
    let d = spec_decimal(n);
    if n < 10 {
        assert((d + rest).drop_first() =~= rest);
    } else {
        let c = (('0' as int) + n % 10) as char;
        assert(d + rest =~= spec_decimal(n / 10) + (seq![c] + rest));
        lemma_digits_decimal(n / 10, seq![c] + rest);
        assert((seq![c] + rest).drop_first() =~= rest);
        assert((n / 10) * 10 + n % 10 == n);
        assert(d[0] == spec_decimal(n / 10)[0]);
    }
}

/// The decimal digits of any `u32` `v` need no trimming and read as `v`.
pub proof fn lemma_decimal_parses(v: u32)
    ensures
        is_ascii_alnum(spec_decimal(v as nat)[0]),
        is_ascii_alnum(spec_decimal(v as nat).last()),
        spec_parse_trimmed(spec_decimal(v as nat)) == Ok::<u32, IntError>(v),
{
    let d = spec_decimal(v as nat);
    lemma_digits_decimal(v as nat, Seq::empty());
    assert(d + Seq::<char>::empty() =~= d);
}

/// A number the manifest writes in hex reads back as the same number,
/// whatever the padding: the text needs no trimming, and parses to `v`.
pub proof fn lemma_hex_text_parses(v: u32, width: nat)
    ensures
        is_ascii_alnum(spec_hex_text(v, width)[0]),
        is_ascii_alnum(spec_hex_text(v, width).last()),
        spec_parse_trimmed(spec_hex_text(v, width)) == Ok::<u32, IntError>(v),
{
    let t = spec_hex_text(v, width);
    let d = spec_hex_lower(v as nat);
    lemma_hex_lower_shape(v as nat);
    let p = spec_hex_lower_pad(v as nat, width);
    assert(p.len() >= 1);
    assert(is_ascii_alnum(p.last()));
    assert(t[0] == '0' && t.last() == p.last());
    assert(t.skip(2) =~= p);
    lemma_digits_hex_lower(v as nat, Seq::empty(), 0);
    assert(d + Seq::<char>::empty() =~= d);
    if d.len() < width {
        lemma_digits_zeros((width - d.len()) as nat, d);
        assert(p[0] == '0');
    } else {
        assert(p == d);
    }
}

} // verus!
