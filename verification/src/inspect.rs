//! What a partition holds, and the checks `verify` runs over a whole image.

use vstd::prelude::*;
use crate::bytes::{rd32_be, spec_be32, splice, write_bytes, zeros};
use crate::checksum::{nvt_chksum, spec_nvt_chksum};
use crate::text::{
    push_decimal, push_hex_lower, push_hex_lower_pad, push_str, spec_decimal, spec_hex_lower,
    spec_hex_lower_pad, utf8_lossy,
};
use crate::format::{
    crc32, crc32_hash, find_nvt_tag, spec_cksm_of, spec_entry, spec_entry_fits, spec_first_tag,
    spec_header_of, spec_header_ok, spec_is_cksm, spec_is_uimage, spec_tag_at, spec_tag_text,
    spec_uimage_name_bytes, spec_uimage_of, CksmHeader, CKSM_VERSION, FirmwareHeader, NvtTag, PartitionEntry, UImageHeader,
};

verus! {

/// Flattened device tree magic, big-endian 0xD00DFEED.
pub const DTB_MAGIC: [u8; 4] = [0xD0, 0x0D, 0xFE, 0xED];

/// `s` starts with the device tree magic.
pub open spec fn spec_has_dtb_magic(s: Seq<u8>) -> bool {
    s.len() >= 4 && s.subrange(0, 4) == seq![0xD0u8, 0x0D, 0xFE, 0xED]
}

/// A 4-byte-aligned scan of `s` finds a build tag.
pub open spec fn spec_has_tag(s: Seq<u8>) -> bool {
    exists|o: int| 0 <= o && o % 4 == 0 && #[trigger] spec_tag_at(s, o)
}

/// What a partition is, in the order the checks are tried.
#[derive(Debug, Clone)]
pub enum PartitionKind {
    Cksm(CksmHeader),
    UImage(UImageHeader),
    DeviceTree { total_size: u32 },
    Tagged(NvtTag),
    Raw,
}

fn has_dtb_magic(part: &[u8]) -> (b: bool)
    ensures
        b == spec_has_dtb_magic(part@),
{
    if part.len() < 4 {
        return false;
    }
    let b = part[0] == 0xD0 && part[1] == 0x0D && part[2] == 0xFE && part[3] == 0xED;
    if b {
        assert(part@.subrange(0, 4) =~= seq![0xD0u8, 0x0D, 0xFE, 0xED]);
    } else {
        proof {
            if part@.subrange(0, 4) == seq![0xD0u8, 0x0D, 0xFE, 0xED] {
                assert(part@.subrange(0, 4)[0] == 0xD0);
                assert(part@.subrange(0, 4)[1] == 0x0D);
                assert(part@.subrange(0, 4)[2] == 0xFE);
                assert(part@.subrange(0, 4)[3] == 0xED);
            }
        }
    }
    b
}

/// Recognise a partition: a CKSM container, then a uImage, then a device
/// tree (with its big-endian total size), then a raw blob carrying a build
/// tag, else plain raw data.
pub fn classify(part: &[u8]) -> (r: PartitionKind)
    requires
        !(4 <= part@.len() < 8 && spec_has_dtb_magic(part@)),
    ensures
        match r {
            PartitionKind::Cksm(c) => spec_is_cksm(part@) && c == spec_cksm_of(part@),
            PartitionKind::UImage(u) => {
                &&& !spec_is_cksm(part@)
                &&& spec_is_uimage(part@)
                &&& spec_uimage_of(part@, u)
            },
            PartitionKind::DeviceTree { total_size } => {
                &&& !spec_is_cksm(part@)
                &&& !spec_is_uimage(part@)
                &&& spec_has_dtb_magic(part@)
                &&& total_size == spec_be32(part@, 4)
            },
            PartitionKind::Tagged(t) => {
                &&& !spec_is_cksm(part@)
                &&& !spec_is_uimage(part@)
                &&& !spec_has_dtb_magic(part@)
                &&& spec_first_tag(part@, t)
            },
            PartitionKind::Raw => {
                &&& !spec_is_cksm(part@)
                &&& !spec_is_uimage(part@)
                &&& !spec_has_dtb_magic(part@)
                &&& !spec_has_tag(part@)
            },
        },
{
    if let Some(c) = CksmHeader::parse(part) {
        PartitionKind::Cksm(c)
    } else if let Some(u) = UImageHeader::parse(part) {
        PartitionKind::UImage(u)
    } else if has_dtb_magic(part) {
        PartitionKind::DeviceTree { total_size: rd32_be(part, 4) }
    } else if let Some(t) = find_nvt_tag(part) {
        PartitionKind::Tagged(t)
    } else {
        PartitionKind::Raw
    }
}

/// The offset of the first build tag a 4-byte-aligned scan of `s` finds.
pub open spec fn spec_first_tag_offset(s: Seq<u8>) -> int {
    choose|o: int|
        {
            &&& o % 4 == 0
            &&& #[trigger] spec_tag_at(s, o)
            &&& forall|k: int| 0 <= k < o && k % 4 == 0 ==> !spec_tag_at(s, k)
        }
}

/// The one-line description of a CKSM header.
pub open spec fn spec_describe_cksm(c: CksmHeader) -> Seq<char> {
    "CKSM v0x"@ + spec_hex_lower_pad(c.version as nat, 8) + (if c.version == CKSM_VERSION {
        ""@
    } else {
        " (unknown)"@
    }) + " payload 0x"@ + spec_hex_lower(c.data_length as nat) + " @0x"@ + spec_hex_lower(
        c.data_offset as nat,
    )
}

/// The one-line description of the uImage header of `s`.
pub open spec fn spec_describe_uimage(s: Seq<u8>) -> Seq<char> {
    "uImage \""@ + utf8_lossy(spec_uimage_name_bytes(s)) + "\" os="@ + spec_decimal(
        s[0x1C] as nat,
    ) + " arch="@ + spec_decimal(s[0x1D] as nat) + " type="@ + spec_decimal(s[0x1E] as nat)
        + " comp="@ + spec_decimal(s[0x1F] as nat) + " load=0x"@ + spec_hex_lower(
        spec_be32(s, 0x10) as nat,
    )
}

/// The one-line description of the build tag at `o` in `s`.
pub open spec fn spec_describe_tag(s: Seq<u8>, o: int) -> Seq<char> {
    "raw, nvt tag \""@ + spec_tag_text(s, o, 0x00, 0x08) + "\" ver \""@ + spec_tag_text(
        s,
        o,
        0x08,
        0x10,
    ) + "\" date \""@ + spec_tag_text(s, o, 0x10, 0x18) + "\" @0x"@ + spec_hex_lower(o as nat)
}

/// The one-line description `info` and `unpack` print for a partition.
pub open spec fn spec_describe(s: Seq<u8>) -> Seq<char> {
    if spec_is_cksm(s) {
        spec_describe_cksm(spec_cksm_of(s))
    } else if spec_is_uimage(s) {
        spec_describe_uimage(s)
    } else if spec_has_dtb_magic(s) {
        "device tree blob, totalsize 0x"@ + spec_hex_lower(spec_be32(s, 4) as nat)
    } else if spec_has_tag(s) {
        spec_describe_tag(s, spec_first_tag_offset(s))
    } else {
        "raw"@
    }
}

proof fn lemma_first_tag_offset(s: Seq<u8>, t: NvtTag)
    requires
        spec_first_tag(s, t),
    ensures
        spec_first_tag_offset(s) == t.offset,
{
    let o = spec_first_tag_offset(s);
    assert(spec_tag_at(s, t.offset as int));
    if o < t.offset {
        assert(!spec_tag_at(s, o));
    } else if o > t.offset {
        assert(!spec_tag_at(s, t.offset as int));
    }
}

/// Describe a partition in one line: its container header, its device tree
/// size, its build tag, or plain raw data.
pub fn describe(part: &[u8]) -> (d: String)
    requires
        !(4 <= part@.len() < 8 && spec_has_dtb_magic(part@)),
    ensures
        d@ == spec_describe(part@),
{
    let mut d = String::new();
    match classify(part) {
        PartitionKind::Cksm(c) => {
            push_str(&mut d, "CKSM v0x");
            push_hex_lower_pad(&mut d, c.version as u64, 8);
            if c.version == CKSM_VERSION {
                push_str(&mut d, "");
            } else {
                push_str(&mut d, " (unknown)");
            }
            push_str(&mut d, " payload 0x");
            push_hex_lower(&mut d, c.data_length as u64);
            push_str(&mut d, " @0x");
            push_hex_lower(&mut d, c.data_offset as u64);
            assert(d@ =~= spec_describe_cksm(c));
        },
        PartitionKind::UImage(u) => {
            push_str(&mut d, "uImage \"");
            push_str(&mut d, u.name.as_str());
            push_str(&mut d, "\" os=");
            push_decimal(&mut d, u.os as u32);
            push_str(&mut d, " arch=");
            push_decimal(&mut d, u.arch as u32);
            push_str(&mut d, " type=");
            push_decimal(&mut d, u.img_type as u32);
            push_str(&mut d, " comp=");
            push_decimal(&mut d, u.comp as u32);
            push_str(&mut d, " load=0x");
            push_hex_lower(&mut d, u.load as u64);
            assert(d@ =~= spec_describe_uimage(part@));
        },
        PartitionKind::DeviceTree { total_size } => {
            push_str(&mut d, "device tree blob, totalsize 0x");
            push_hex_lower(&mut d, total_size as u64);
        },
        PartitionKind::Tagged(t) => {
            push_str(&mut d, "raw, nvt tag \"");
            push_str(&mut d, t.tag.as_str());
            push_str(&mut d, "\" ver \"");
            push_str(&mut d, t.version.as_str());
            push_str(&mut d, "\" date \"");
            push_str(&mut d, t.date.as_str());
            push_str(&mut d, "\" @0x");
            push_hex_lower(&mut d, t.offset as u64);
            proof {
                lemma_first_tag_offset(part@, t);
                assert(spec_has_tag(part@));
            }
            assert(d@ =~= spec_describe_tag(part@, t.offset as int));
        },
        PartitionKind::Raw => {
            push_str(&mut d, "raw");
        },
    }
    d
}

/// File extension for a partition's payload file.
pub open spec fn spec_payload_ext(blob: Seq<u8>, raw: bool) -> Seq<char> {
    if raw {
        "bin"@
    } else if spec_is_cksm(blob) {
        "ubi"@
    } else if spec_is_uimage(blob) {
        "lzma"@
    } else if spec_has_dtb_magic(blob) {
        "dtb"@
    } else {
        "bin"@
    }
}

/// A payload split off whole (on request, or with no container or device
/// tree) is a `.bin`; a CKSM payload a `.ubi`; a uImage payload a `.lzma`;
/// a device tree a `.dtb`.
pub proof fn lemma_payload_ext_kinds(blob: Seq<u8>, raw: bool)
    ensures
        raw ==> spec_payload_ext(blob, raw) == seq!['b', 'i', 'n'],
        !raw && spec_is_cksm(blob) ==> spec_payload_ext(blob, raw) == seq!['u', 'b', 'i'],
        !raw && !spec_is_cksm(blob) && spec_is_uimage(blob) ==> spec_payload_ext(blob, raw)
            == seq!['l', 'z', 'm', 'a'],
        !raw && !spec_is_cksm(blob) && !spec_is_uimage(blob) && spec_has_dtb_magic(blob)
            ==> spec_payload_ext(blob, raw) == seq!['d', 't', 'b'],
        !raw && !spec_is_cksm(blob) && !spec_is_uimage(blob) && !spec_has_dtb_magic(blob)
            ==> spec_payload_ext(blob, raw) == seq!['b', 'i', 'n'],
{
    reveal_strlit("bin");
    reveal_strlit("ubi");
    reveal_strlit("lzma");
    reveal_strlit("dtb");
    assert("bin"@ =~= seq!['b', 'i', 'n']);
    assert("ubi"@ =~= seq!['u', 'b', 'i']);
    assert("lzma"@ =~= seq!['l', 'z', 'm', 'a']);
    assert("dtb"@ =~= seq!['d', 't', 'b']);
}

/// File extension to give a partition's payload, so the split tree is obvious
/// to whatever it is pointed at next.
pub fn payload_ext(id: u32, blob: &[u8], raw: bool) -> (e: &'static str)
    ensures
        e@ == spec_payload_ext(blob@, raw),
{
    if raw {
        return "bin";
    }
    if CksmHeader::parse(blob).is_some() {
        return "ubi";
    }
    if UImageHeader::parse(blob).is_some() {
        return "lzma";
    }
    if has_dtb_magic(blob) {
        return "dtb";
    }
    "bin"
}


/// The stored and recomputed CRCs of a uImage partition.
#[derive(Debug, Clone, Copy, PartialEq, Eq)]
pub struct UImageCrcs {
    pub data_stored: u32,
    pub data_want: u32,
    pub header_stored: u32,
    pub header_want: u32,
}

/// What `verify` finds in one partition.
#[derive(Debug, Clone, Copy, PartialEq, Eq)]
pub struct PartitionReport {
    pub id: u32,
    /// The Novatek checksum of the partition; zero when accepted.
    pub residue: u16,
    /// The partition carries a corrective word (a CKSM header or a build
    /// tag), so a non-zero residue is a failure rather than a note.
    pub has_slot: bool,
    /// For a uImage partition, its data and header CRCs.
    pub crcs: Option<UImageCrcs>,
}

/// What `verify` finds in a whole image.
#[derive(Debug, Clone)]
pub struct ImageReport {
    /// The header's `total_size` field.
    pub total_size: u64,
    /// The length of the image.
    pub file_size: u64,
    /// The Novatek checksum of the whole image; zero when accepted.
    pub residue: u16,
    pub parts: Vec<PartitionReport>,
}

/// The CRCs of the uImage partition `b`.
pub open spec fn spec_uimage_crcs(b: Seq<u8>) -> UImageCrcs {
    UImageCrcs {
        data_stored: spec_be32(b, 0x18) as u32,
        data_want: crc32(b.subrange(0x40, b.len() as int)),
        header_stored: spec_be32(b, 0x04) as u32,
        header_want: crc32(splice(b.subrange(0, 0x40), 4, zeros(4))),
    }
}

/// What `verify` finds in the partition `b` with id `id`.
pub open spec fn spec_part_report(b: Seq<u8>, id: u32) -> PartitionReport {
    PartitionReport {
        id,
        residue: spec_nvt_chksum(b),
        has_slot: spec_is_cksm(b) || spec_has_tag(b),
        crcs: if spec_is_uimage(b) {
            Some(spec_uimage_crcs(b))
        } else {
            None
        },
    }
}

/// The bytes of the partition table row `e` in the image `s`.
pub open spec fn spec_blob(s: Seq<u8>, e: PartitionEntry) -> Seq<u8> {
    s.subrange(e.offset as int, e.offset + e.size)
}

/// Check one partition.
pub fn verify_partition(blob: &[u8], id: u32) -> (c: PartitionReport)
    ensures
        c == spec_part_report(blob@, id),
{
    let residue = nvt_chksum(blob);
    let tag = find_nvt_tag(blob);
    proof {
        if tag is Some {
            assert(spec_tag_at(blob@, tag->0.offset as int));
        }
    }
    let has_slot = CksmHeader::parse(blob).is_some() || tag.is_some();
    let crcs = if UImageHeader::parse(blob).is_some() {
        let n = blob.len();
        let data_want = crc32_hash(&blob[0x40..n]);
        let mut h: Vec<u8> = Vec::new();
        let mut i: usize = 0;
        while i < 0x40
            invariant
                i <= 0x40,
                blob@.len() >= 0x40,
                h@ == blob@.subrange(0, i as int),
            decreases 0x40 - i,
        {
            h.push(blob[i]);
            i = i + 1;
            assert(h@ =~= blob@.subrange(0, i as int));
        }
        let z: [u8; 4] = [0, 0, 0, 0];
        assert(z@ =~= zeros(4));
        write_bytes(&mut h, 4, z.as_slice());
        let header_want = crc32_hash(h.as_slice());
        Some(
            UImageCrcs {
                data_stored: rd32_be(blob, 0x18),
                data_want,
                header_stored: rd32_be(blob, 0x04),
                header_want,
            },
        )
    } else {
        None
    };
    PartitionReport { id, residue, has_slot, crcs }
}

/// Check every Novatek checksum in an image whose header `fw` has already
/// been parsed from it, and the CRCs of every uImage partition.
pub fn verify_image(data: &[u8], fw: &FirmwareHeader) -> (r: ImageReport)
    requires
        spec_header_ok(data@),
        spec_header_of(data@, *fw),
    ensures
        r.total_size == fw.total_size,
        r.file_size == data@.len(),
        r.residue == spec_nvt_chksum(data@),
        r.parts@ == Seq::new(
            fw.parts@.len(),
            |i: int| spec_part_report(spec_blob(data@, fw.parts@[i]), fw.parts@[i].id),
        ),
{
    let residue = nvt_chksum(data);
    let dlen = data.len();
    let mut parts: Vec<PartitionReport> = Vec::new();
    let mut i: usize = 0;
    while i < fw.parts.len()
        invariant
            spec_header_ok(data@),
            spec_header_of(data@, *fw),
            dlen == data@.len(),
            i <= fw.parts@.len(),
            parts@ == Seq::new(
                i as nat,
                |k: int| spec_part_report(spec_blob(data@, fw.parts@[k]), fw.parts@[k].id),
            ),
        decreases fw.parts@.len() - i,
    {
        let p = fw.parts[i];
        assert(p == spec_entry(data@, i as int));
        assert(spec_entry_fits(data@, i as int));
        let ghost before = parts@;
        let blob = &data[p.offset as usize..(p.offset + p.size) as usize];
        let c = verify_partition(blob, p.id);
        parts.push(c);
        i = i + 1;
        assert(blob@ == spec_blob(data@, fw.parts@[i - 1]));
        assert(parts@ =~= Seq::new(
            i as nat,
            |k: int| spec_part_report(spec_blob(data@, fw.parts@[k]), fw.parts@[k].id),
        ));
    }
    ImageReport { total_size: fw.total_size, file_size: data.len() as u64, residue, parts }
}

/// How many checks of one partition failed.
pub open spec fn spec_part_failures(c: PartitionReport) -> nat {
    (if c.residue != 0 && c.has_slot {
        1nat
    } else {
        0nat
    }) + match c.crcs {
        Some(k) => (if k.data_stored != k.data_want {
            1nat
        } else {
            0nat
        }) + (if k.header_stored != k.header_want {
            1nat
        } else {
            0nat
        }),
        None => 0nat,
    }
}

/// How many checks of the first `n` partitions failed.
pub open spec fn spec_parts_failures(ps: Seq<PartitionReport>, n: nat) -> nat
    decreases n,
{
    if n == 0 {
        0
    } else {
        spec_parts_failures(ps, (n - 1) as nat) + spec_part_failures(ps[n - 1])
    }
}

/// How many checks of a whole image failed.
pub open spec fn spec_failures(r: ImageReport) -> nat {
    (if r.total_size != r.file_size {
        1nat
    } else {
        0nat
    }) + (if r.residue != 0 {
        1nat
    } else {
        0nat
    }) + spec_parts_failures(r.parts@, r.parts@.len())
}

proof fn lemma_parts_failures_bound(ps: Seq<PartitionReport>, n: nat)
    requires
        n <= ps.len(),
    ensures
        spec_parts_failures(ps, n) <= 3 * n,
    decreases n,
{
    if n > 0 {
        lemma_parts_failures_bound(ps, (n - 1) as nat);
    }
}

/// The first `n` partitions fail no check exactly when each of them fails none.
proof fn lemma_parts_failures_zero(ps: Seq<PartitionReport>, n: nat)
    requires
        n <= ps.len(),
    ensures
        spec_parts_failures(ps, n) == 0 <==> forall|i: int|
            0 <= i < n ==> #[trigger] spec_part_failures(ps[i]) == 0,
    decreases n,
{
    if n > 0 {
        lemma_parts_failures_zero(ps, (n - 1) as nat);
        if spec_parts_failures(ps, n) == 0 {
            assert forall|i: int| 0 <= i < n implies #[trigger] spec_part_failures(ps[i]) == 0 by {
                if i < n - 1 {
                }
            }
        }
    }
}

/// An image passes verification (no failed check) exactly when its header's
/// total size is the image length, its whole-image checksum is zero, every
/// partition with a corrective word has a zero checksum, and every uImage
/// partition's stored data and header CRCs are the ones computed.
pub proof fn lemma_no_failures_iff(r: ImageReport)
    ensures
        spec_failures(r) == 0 <==> {
            &&& r.total_size == r.file_size
            &&& r.residue == 0
            &&& forall|i: int|
                0 <= i < r.parts@.len() ==> {
                    &&& (#[trigger] r.parts@[i]).has_slot ==> r.parts@[i].residue == 0
                    &&& r.parts@[i].crcs matches Some(k) ==> k.data_stored == k.data_want
                        && k.header_stored == k.header_want
                }
        },
{
    let ps = r.parts@;
    lemma_parts_failures_zero(ps, ps.len());
    let each = forall|i: int|
        0 <= i < ps.len() ==> {
            &&& (#[trigger] ps[i]).has_slot ==> ps[i].residue == 0
            &&& ps[i].crcs matches Some(k) ==> k.data_stored == k.data_want && k.header_stored
                == k.header_want
        };
    if each {
        assert forall|i: int| 0 <= i < ps.len() implies #[trigger] spec_part_failures(ps[i])
            == 0 by {
            assert(ps[i] == ps[i]);
        }
    }
    if spec_parts_failures(ps, ps.len()) == 0 {
        assert forall|i: int| 0 <= i < ps.len() implies {
            &&& (#[trigger] ps[i]).has_slot ==> ps[i].residue == 0
            &&& ps[i].crcs matches Some(k) ==> k.data_stored == k.data_want && k.header_stored
                == k.header_want
        } by {
            assert(spec_part_failures(ps[i]) == 0);
        }
    }
}

impl ImageReport {
    /// The number of failed checks: a `total_size` that is not the image
    /// length, a non-zero image checksum, a non-zero checksum in a partition
    /// with a corrective word, and each wrong uImage CRC.
    pub fn failure_count(&self) -> (n: u64)
        requires
            self.parts@.len() <= u32::MAX,
        ensures
            n == spec_failures(*self),
            n == 0 <==> {
                &&& self.total_size == self.file_size
                &&& self.residue == 0
                &&& forall|i: int|
                    0 <= i < self.parts@.len() ==> {
                        &&& (#[trigger] self.parts@[i]).has_slot ==> self.parts@[i].residue == 0
                        &&& self.parts@[i].crcs matches Some(k) ==> k.data_stored == k.data_want
                            && k.header_stored == k.header_want
                    }
            },
    {
        let mut n: u64 = 0;
        if self.total_size != self.file_size {
            n = n + 1;
        }
        if self.residue != 0 {
            n = n + 1;
        }
        let ghost base = n;
        let mut i: usize = 0;
        while i < self.parts.len()
            invariant
                i <= self.parts@.len(),
                self.parts@.len() <= u32::MAX,
                base <= 2,
                n == base + spec_parts_failures(self.parts@, i as nat),
            decreases self.parts@.len() - i,
        {
            proof {
                lemma_parts_failures_bound(self.parts@, i as nat);
            }
            let c = self.parts[i];
            if c.residue != 0 && c.has_slot {
                n = n + 1;
            }
            if let Some(k) = c.crcs {
                if k.data_stored != k.data_want {
                    n = n + 1;
                }
                if k.header_stored != k.header_want {
                    n = n + 1;
                }
            }
            i = i + 1;
        }
        proof {
            lemma_no_failures_iff(*self);
        }
        n
    }
}

} // verus!
