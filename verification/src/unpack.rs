//! Splitting an image into per-partition payloads and manifest entries.

use vstd::prelude::*;
use crate::bytes::{rd32_be, spec_be32};
use crate::format::{
    CksmHeader, UImageHeader, FirmwareHeader, PartitionEntry, DEFAULT_ALIGN, UIMAGE_HDR_LEN,
    find_nvt_tag, partition_name, spec_partition_name, spec_is_cksm, spec_cksm_of,
    spec_is_uimage, spec_uimage_name_bytes, spec_tag_at,
};
use crate::inspect::{payload_ext, spec_payload_ext, spec_has_tag};
use crate::manifest::{spec_is_pow2, Cksm, Container, Partition, UImage};
use crate::text::{push_char, push_decimal2, push_str, spec_decimal2, utf8_lossy};

verus! {

/// Every partition starts at or after `first`, a multiple of `a` bytes on.
pub open spec fn spec_all_aligned(parts: Seq<PartitionEntry>, first: int, a: int) -> bool {
    forall|i: int|
        0 <= i < parts.len() ==> #[trigger] parts[i].offset >= first && (parts[i].offset - first)
            % a == 0
}

/// The largest of `a`, `a/2`, ... down to 2 under which every partition is
/// aligned, or 1.
pub open spec fn spec_derive_align(parts: Seq<PartitionEntry>, first: int, a: nat) -> nat
    decreases a,
{
    if a > 0 && spec_all_aligned(parts, first, a as int) {
        a
    } else if a / 2 < 2 {
        1
    } else {
        spec_derive_align(parts, first, a / 2)
    }
}

/// The alignment recovered is one every partition meets, unless it is 1.
pub proof fn lemma_derive_align_fits(parts: Seq<PartitionEntry>, first: int, a: nat)
    ensures
        spec_derive_align(parts, first, a) == 1 || spec_all_aligned(
            parts,
            first,
            spec_derive_align(parts, first, a) as int,
        ),
    decreases a,
{
    if !(a > 0 && spec_all_aligned(parts, first, a as int)) && a / 2 >= 2 {
        lemma_derive_align_fits(parts, first, a / 2);
    }
}

/// Of two powers of two, the smaller is at most half the larger.
proof fn lemma_pow2_smaller(a: nat, b: nat)
    requires
        spec_is_pow2(a),
        spec_is_pow2(b),
        b < a,
    ensures
        b <= a / 2,
    decreases a,
{
    if b >= 2 {
        lemma_pow2_smaller(a / 2, b / 2);
    }
}

/// Starting from a power of two `a`, the alignment recovered is the largest
/// power of two not above `a` under which every partition's distance from
/// `first` is a multiple: it is a power of two, at most `a`, every partition
/// is aligned to it unless it is 1, and for each larger power of two up to
/// `a` some partition is not aligned to it.
pub proof fn lemma_derive_align_largest(parts: Seq<PartitionEntry>, first: int, a: nat)
    requires
        spec_is_pow2(a),
    ensures
        spec_is_pow2(spec_derive_align(parts, first, a)),
        1 <= spec_derive_align(parts, first, a) <= a,
        spec_derive_align(parts, first, a) == 1 || spec_all_aligned(
            parts,
            first,
            spec_derive_align(parts, first, a) as int,
        ),
        forall|b: nat|
            spec_is_pow2(b) && spec_derive_align(parts, first, a) < b <= a ==> !spec_all_aligned(
                parts,
                first,
                b as int,
            ),
    decreases a,
{
    let r = spec_derive_align(parts, first, a);
    if a > 0 && spec_all_aligned(parts, first, a as int) {
    } else if a / 2 < 2 {
        assert(spec_is_pow2(1));
        assert forall|b: nat| spec_is_pow2(b) && r < b <= a implies !spec_all_aligned(
            parts,
            first,
            b as int,
        ) by {
            if b < a {
                lemma_pow2_smaller(a, b);
            }
        }
    } else {
        lemma_derive_align_largest(parts, first, a / 2);
        assert forall|b: nat| spec_is_pow2(b) && r < b <= a implies !spec_all_aligned(
            parts,
            first,
            b as int,
        ) by {
            if b < a {
                lemma_pow2_smaller(a, b);
            }
        }
    }
}

fn all_aligned(parts: &Vec<PartitionEntry>, first: u64, a: u64) -> (b: bool)
    requires
        a > 0,
    ensures
        b == spec_all_aligned(parts@, first as int, a as int),
{
    let mut i: usize = 0;
    while i < parts.len()
        invariant
            a > 0,
            i <= parts@.len(),
            forall|k: int|
                0 <= k < i ==> #[trigger] parts@[k].offset >= first && (parts@[k].offset - first)
                    % (a as int) == 0,
        decreases parts@.len() - i,
    {
        let p = parts[i];
        if !(p.offset >= first && (p.offset - first) % a == 0) {
            return false;
        }
        i = i + 1;
    }
    true
}

/// Recover the partition alignment used by an existing image: the largest
/// power of two from 0x40 down under which every partition's distance from
/// the first partition offset is a multiple, or 1.
pub fn derive_align(fw: &FirmwareHeader) -> (r: Option<u64>)
    requires
        fw.header_size + 12 * fw.parts@.len() <= u64::MAX,
    ensures
        r == Some(
            spec_derive_align(
                fw.parts@,
                fw.header_size + 12 * fw.parts@.len(),
                DEFAULT_ALIGN as nat,
            ) as u64,
        ),
        ({
            let x = r->Some_0 as nat;
            let first = fw.header_size + 12 * fw.parts@.len();
            &&& spec_is_pow2(x)
            &&& 1 <= x <= DEFAULT_ALIGN
            &&& x == 1 || spec_all_aligned(fw.parts@, first, x as int)
            &&& forall|b: nat|
                spec_is_pow2(b) && x < b <= DEFAULT_ALIGN ==> !spec_all_aligned(
                    fw.parts@,
                    first,
                    b as int,
                )
        }),
{
    let first = fw.first_partition_offset();
    proof {
        assert(spec_is_pow2(DEFAULT_ALIGN as nat)) by {
            reveal_with_fuel(spec_is_pow2, 8);
        }
        lemma_derive_align_largest(fw.parts@, first as int, DEFAULT_ALIGN as nat);
    }
    let ghost x = spec_derive_align(fw.parts@, first as int, DEFAULT_ALIGN as nat);
    let mut a: u64 = DEFAULT_ALIGN;
    loop
        invariant
            1 <= a <= DEFAULT_ALIGN,
            first == fw.header_size + 12 * fw.parts@.len(),
            spec_derive_align(fw.parts@, first as int, DEFAULT_ALIGN as nat) == spec_derive_align(
                fw.parts@,
                first as int,
                a as nat,
            ),
            x == spec_derive_align(fw.parts@, first as int, DEFAULT_ALIGN as nat),
            spec_is_pow2(x),
            1 <= x <= DEFAULT_ALIGN,
            x == 1 || spec_all_aligned(fw.parts@, first as int, x as int),
            forall|b: nat|
                spec_is_pow2(b) && x < b <= DEFAULT_ALIGN ==> !spec_all_aligned(
                    fw.parts@,
                    first as int,
                    b as int,
                ),
        decreases a,
    {
        if all_aligned(&fw.parts, first, a) {
            return Some(a);
        }
        a = a / 2;
        if a < 2 {
            return Some(1);
        }
    }
}

/// The payload file name: two-digit id, partition name, extension.
pub open spec fn spec_payload_file(id: u32, name: Seq<char>, ext: Seq<char>) -> Seq<char> {
    spec_decimal2(id as nat) + seq!['-'] + name + seq!['.'] + ext
}

/// `{id:02}-{name}.{ext}`.
pub fn payload_file_name(id: u32, name: &str, ext: &str) -> (s: String)
    ensures
        s@ == spec_payload_file(id, name@, ext@),
{
    let mut s = String::new();
    push_decimal2(&mut s, id);
    push_char(&mut s, '-');
    push_str(&mut s, name);
    push_char(&mut s, '.');
    push_str(&mut s, ext);
    assert(s@ =~= spec_payload_file(id, name@, ext@));
    s
}

/// A partition split off an image: its manifest entry and where its payload
/// lies in the image.
#[derive(Debug, Clone)]
pub struct UnpackedPart {
    pub entry: Partition,
    /// The payload is `image[start..end]`.
    pub start: usize,
    pub end: usize,
}

/// Why a partition cannot be split off.
#[derive(Debug, Clone)]
pub enum UnpackError {
    /// The container header describes a payload that runs past the partition.
    PayloadPastEnd { id: u32, name: String, container: Container },
}

/// The manifest entry records the first build tag of the raw blob `b`.
/// (as a 32-bit offset).
pub open spec fn spec_tag_field(b: Seq<u8>, t: Option<u32>) -> bool {
    match t {
        None => !spec_has_tag(b),
        Some(o) => exists|off: int|
            {
                &&& off % 4 == 0
                &&& #[trigger] spec_tag_at(b, off)
                &&& forall|k: int| 0 <= k < off && k % 4 == 0 ==> !spec_tag_at(b, k)
                &&& o == off as u32
            },
    }
}

/// The uImage fields of a manifest entry are those of the header of `b`.
pub open spec fn spec_uimage_fields(b: Seq<u8>, u: UImage) -> bool {
    &&& u.time as int == spec_be32(b, 0x08)
    &&& u.load as int == spec_be32(b, 0x10)
    &&& u.entry as int == spec_be32(b, 0x14)
    &&& u.os == b[0x1C]
    &&& u.arch == b[0x1D]
    &&& u.img_type == b[0x1E]
    &&& u.comp == b[0x1F]
    &&& u.name@ == utf8_lossy(spec_uimage_name_bytes(b))
    &&& vstd::utf8::valid_utf8(spec_uimage_name_bytes(b)) ==> u.name@ == vstd::utf8::decode_utf8(
        spec_uimage_name_bytes(b),
    )
}

/// The CKSM fields of a manifest entry.
pub open spec fn spec_cksm_fields(c: CksmHeader) -> Cksm {
    Cksm {
        version: c.version,
        field_08: c.field_08,
        data_offset: c.data_offset,
        field_18: c.field_18,
        field_1c: c.field_1c,
    }
}

/// Where the payload of the partition blob `b` lies within it, given how it is
/// split: the whole blob when raw or unwrapped, else what its header says.
pub open spec fn spec_payload_range(b: Seq<u8>, raw: bool) -> (int, int) {
    if raw {
        (0, b.len() as int)
    } else if spec_is_cksm(b) {
        (
            spec_cksm_of(b).data_offset as int,
            spec_cksm_of(b).data_offset + spec_cksm_of(b).data_length,
        )
    } else if spec_is_uimage(b) {
        (0x40, 0x40 + spec_be32(b, 0x0C))
    } else {
        (0, b.len() as int)
    }
}

/// The container `unpack_partition` gives the blob `b`.
pub open spec fn spec_container(b: Seq<u8>, raw: bool) -> Container {
    if raw {
        Container::Raw
    } else if spec_is_cksm(b) {
        Container::Cksm
    } else if spec_is_uimage(b) {
        Container::Uimage
    } else {
        Container::Raw
    }
}

/// What `unpack_partition` answers for the row `p` of the image `s`.
pub open spec fn spec_unpacked(
    s: Seq<u8>,
    p: PartitionEntry,
    raw: bool,
    r: Result<UnpackedPart, UnpackError>,
) -> bool {
    let b = s.subrange(p.offset as int, p.offset + p.size);
    let (ps, pe) = spec_payload_range(b, raw);
    let c = spec_container(b, raw);
    match r {
        Ok(u) => {
            &&& pe <= b.len()
            &&& u.start == p.offset + ps
            &&& u.end == p.offset + pe
            &&& u.entry.id == p.id
            &&& u.entry.name@ == spec_partition_name(p.id)
            &&& u.entry.file@ == spec_payload_file(
                p.id,
                spec_partition_name(p.id),
                spec_payload_ext(b, raw),
            )
            &&& u.entry.container == c
            &&& c == Container::Raw ==> spec_tag_field(b, u.entry.nvt_tag_offset)
            &&& c != Container::Raw ==> u.entry.nvt_tag_offset is None
            &&& u.entry.cksm == if c == Container::Cksm {
                Some(spec_cksm_fields(spec_cksm_of(b)))
            } else {
                None::<Cksm>
            }
            &&& c == Container::Uimage <==> u.entry.uimage is Some
            &&& u.entry.uimage matches Some(ui) ==> spec_uimage_fields(b, ui)
        },
        Err(UnpackError::PayloadPastEnd { id, name, container }) => {
            &&& pe > b.len()
            &&& id == p.id
            &&& name@ == spec_partition_name(p.id)
            &&& container == c
        },
    }
}

/// A partition that unpacks as a uImage starts with the uImage magic, and
/// its manifest entry records the big-endian word at 0x10 of the partition
/// as the load address, the word at 0x14 as the entry point and the word at
/// 0x08 as the creation time, and the bytes at 0x1C..0x20 as OS,
/// architecture, image type and compression.
pub proof fn lemma_unpack_uimage_fields(
    s: Seq<u8>,
    p: PartitionEntry,
    raw: bool,
    r: Result<UnpackedPart, UnpackError>,
)
    requires
        spec_unpacked(s, p, raw, r),
        r is Ok,
        r->Ok_0.entry.container == Container::Uimage,
    ensures
        ({
            let b = s.subrange(p.offset as int, p.offset + p.size);
            let e = r->Ok_0.entry;
            &&& !raw
            &&& spec_is_uimage(b)
            &&& e.uimage is Some
            &&& e.uimage->0.load == spec_be32(b, 0x10)
            &&& e.uimage->0.entry == spec_be32(b, 0x14)
            &&& e.uimage->0.time == spec_be32(b, 0x08)
            &&& e.uimage->0.os == b[0x1C]
            &&& e.uimage->0.arch == b[0x1D]
            &&& e.uimage->0.img_type == b[0x1E]
            &&& e.uimage->0.comp == b[0x1F]
        }),
{
}

/// Split one partition off an image: its manifest entry (name, payload file
/// name, container and the header fields the container needs) and the range
/// of its payload. With `raw`, or for a partition with no CKSM or uImage
/// header, the payload is the whole partition and a build tag, if found, is
/// recorded; otherwise the container header is stripped into the entry.
pub fn unpack_partition(data: &[u8], p: PartitionEntry, raw: bool) -> (r: Result<
    UnpackedPart,
    UnpackError,
>)
    requires
        p.offset + p.size <= data@.len(),
    ensures
        spec_unpacked(data@, p, raw, r),
{
    let _len = data.len();  // bounds the length by usize::MAX for the offsets below
    let off = p.offset as usize;
    let end = (p.offset + p.size) as usize;
    let blob = &data[off..end];
    let name = partition_name(p.id);
    let ext = payload_ext(p.id, blob, raw);
    let file = payload_file_name(p.id, name.as_str(), ext);
    let mut entry = Partition {
        id: p.id,
        name,
        file,
        container: Container::Raw,
        nvt_tag_offset: None,
        cksm: None,
        uimage: None,
    };
    if raw {
        if let Some(t) = find_nvt_tag(blob) {
            entry.nvt_tag_offset = Some(t.offset as u32);
        }
        return Ok(UnpackedPart { entry, start: off, end });
    }
    if let Some(c) = CksmHeader::parse(blob) {
        entry.container = Container::Cksm;
        entry.cksm = Some(
            Cksm {
                version: c.version,
                field_08: c.field_08,
                data_offset: c.data_offset,
                field_18: c.field_18,
                field_1c: c.field_1c,
            },
        );
        let s = c.data_offset as u64;
        let e = s + c.data_length as u64;
        if e > blob.len() as u64 {
            return Err(
                UnpackError::PayloadPastEnd {
                    id: p.id,
                    name: entry.name,
                    container: Container::Cksm,
                },
            );
        }
        return Ok(UnpackedPart { entry, start: off + s as usize, end: off + e as usize });
    }
    if let Some(u) = UImageHeader::parse(blob) {
        entry.container = Container::Uimage;
        let len = rd32_be(blob, 0x0C) as u64;
        entry.uimage = Some(
            UImage {
                name: u.name,
                time: u.time,
                load: u.load,
                entry: u.entry,
                os: u.os,
                arch: u.arch,
                img_type: u.img_type,
                comp: u.comp,
            },
        );
        let e = UIMAGE_HDR_LEN as u64 + len;
        if e > blob.len() as u64 {
            return Err(
                UnpackError::PayloadPastEnd {
                    id: p.id,
                    name: entry.name,
                    container: Container::Uimage,
                },
            );
        }
        return Ok(
            UnpackedPart { entry, start: off + UIMAGE_HDR_LEN, end: off + e as usize },
        );
    }
    if let Some(t) = find_nvt_tag(blob) {
        entry.nvt_tag_offset = Some(t.offset as u32);
    }
    Ok(UnpackedPart { entry, start: off, end })
}

} // verus!
