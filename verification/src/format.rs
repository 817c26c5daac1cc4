//! On-disk layout of a Novatek NVTPACK firmware image (`NVTPACK_FW_HDR2`).
//!
//! ```text
//! 0x00  16  GUID          D6012E07-10BC-4F91-B28A-352F82261A50
//! 0x10  u32 version       0x16071515
//! 0x14  u32 header_size   0x80 -- also the offset of the partition table
//! 0x18  u32 part_count
//! 0x1C  u32 total_size    == file size
//! 0x20  u32 chksum_method 0
//! 0x24  u32 chksum_value  low 16 bits are the corrective word
//! 0x28  ..  zero padding up to header_size
//! 0x80      partition table: part_count * { u32 offset; u32 size; u32 id }
//! ```
//!
//! The whole file must satisfy `nvt_chksum(file) == 0`.

use vstd::prelude::*;
use crate::bytes::{
    be32_bytes, le16_bytes, le32_bytes, push_be32, push_le32, rd16, rd32, rd32_be, spec_be32,
    spec_le32, splice, write_bytes, zero_vec, zeros,
};
use crate::checksum::{
    le16, lemma_solve_valid_is_identity, lemma_solved_is_valid, solve, spec_is_valid,
    spec_solve_word, spec_solved,
};
pub use crate::text::hex;
use crate::text::{
    lemma_find_nul_at, nul_terminated_len, push_decimal, spec_decimal, trim_str, trimmed,
    until_nul, utf8_lossy, utf8_lossy_string,
};

verus! {

pub const FW_GUID: [u8; 16] = [
    0x07, 0x2E, 0x01, 0xD6, 0xBC, 0x10, 0x91, 0x4F, 0xB2, 0x8A, 0x35, 0x2F, 0x82, 0x26, 0x1A, 0x50,
];

pub const FW_VERSION: u32 = 0x1607_1515;

/// Offset of the 32-bit corrective checksum word in the firmware header.
pub const FW_CHKSUM_OFF: usize = 0x24;

/// Partitions start on a 0x40 boundary measured from the first partition offset.
pub const DEFAULT_ALIGN: u64 = 0x40;

/// The image GUID as bytes.
pub open spec fn spec_fw_guid() -> Seq<u8> {
    seq![
        0x07u8, 0x2E, 0x01, 0xD6, 0xBC, 0x10, 0x91, 0x4F, 0xB2, 0x8A, 0x35, 0x2F, 0x82, 0x26, 0x1A,
        0x50,
    ]
}

/// Partition name for a partition id, from the `nvtpack/index` node of the
/// shipped device tree; `id<N>` for an id it does not list.
pub open spec fn spec_partition_name(id: u32) -> Seq<char> {
    if id == 0 {
        "loader"@
    } else if id == 1 {
        "fdt"@
    } else if id == 2 {
        "fdt.restore"@
    } else if id == 3 {
        "atf"@
    } else if id == 4 {
        "uboot"@
    } else if id == 5 {
        "uenv"@
    } else if id == 6 {
        "kernel"@
    } else if id == 7 {
        "rootfs"@
    } else if id == 8 {
        "pstore"@
    } else if id == 9 {
        "app"@
    } else if id == 10 {
        "par"@
    } else {
        "id"@ + spec_decimal(id as nat)
    }
}

/// The names of the device tree's `nvtpack/index` table, id by id: 0
/// loader, 1 fdt, 2 fdt.restore, 3 atf, 4 uboot, 5 uenv, 6 kernel, 7 rootfs,
/// 8 pstore, 9 app, 10 par; any other id is named `id` and its decimal
/// digits.
pub proof fn lemma_partition_name_table(id: u32)
    ensures
        spec_partition_name(0) == seq!['l', 'o', 'a', 'd', 'e', 'r'],
        spec_partition_name(1) == seq!['f', 'd', 't'],
        spec_partition_name(2) == seq!['f', 'd', 't', '.', 'r', 'e', 's', 't', 'o', 'r', 'e'],
        spec_partition_name(3) == seq!['a', 't', 'f'],
        spec_partition_name(4) == seq!['u', 'b', 'o', 'o', 't'],
        spec_partition_name(5) == seq!['u', 'e', 'n', 'v'],
        spec_partition_name(6) == seq!['k', 'e', 'r', 'n', 'e', 'l'],
        spec_partition_name(7) == seq!['r', 'o', 'o', 't', 'f', 's'],
        spec_partition_name(8) == seq!['p', 's', 't', 'o', 'r', 'e'],
        spec_partition_name(9) == seq!['a', 'p', 'p'],
        spec_partition_name(10) == seq!['p', 'a', 'r'],
        id > 10 ==> spec_partition_name(id) == seq!['i', 'd'] + spec_decimal(id as nat),
{
    reveal_strlit("loader");
    reveal_strlit("fdt");
    reveal_strlit("fdt.restore");
    reveal_strlit("atf");
    reveal_strlit("uboot");
    reveal_strlit("uenv");
    reveal_strlit("kernel");
    reveal_strlit("rootfs");
    reveal_strlit("pstore");
    reveal_strlit("app");
    reveal_strlit("par");
    reveal_strlit("id");
    if id > 10 {
        assert("id"@ =~= seq!['i', 'd']);
    }
    assert("loader"@ =~= seq!['l', 'o', 'a', 'd', 'e', 'r']);
    assert("fdt"@ =~= seq!['f', 'd', 't']);
    assert("fdt.restore"@ =~= seq!['f', 'd', 't', '.', 'r', 'e', 's', 't', 'o', 'r', 'e']);
    assert("atf"@ =~= seq!['a', 't', 'f']);
    assert("uboot"@ =~= seq!['u', 'b', 'o', 'o', 't']);
    assert("uenv"@ =~= seq!['u', 'e', 'n', 'v']);
    assert("kernel"@ =~= seq!['k', 'e', 'r', 'n', 'e', 'l']);
    assert("rootfs"@ =~= seq!['r', 'o', 'o', 't', 'f', 's']);
    assert("pstore"@ =~= seq!['p', 's', 't', 'o', 'r', 'e']);
    assert("app"@ =~= seq!['a', 'p', 'p']);
    assert("par"@ =~= seq!['p', 'a', 'r']);
}

/// Partition id -> name (see [`spec_partition_name`]).
pub fn partition_name(id: u32) -> (s: String)
    ensures
        s@ == spec_partition_name(id),
{
    match id {
        0 => "loader".to_owned(),
        1 => "fdt".to_owned(),
        2 => "fdt.restore".to_owned(),
        3 => "atf".to_owned(),
        4 => "uboot".to_owned(),
        5 => "uenv".to_owned(),
        6 => "kernel".to_owned(),
        7 => "rootfs".to_owned(),
        8 => "pstore".to_owned(),
        9 => "app".to_owned(),
        10 => "par".to_owned(),
        _ => {
            let mut s = "id".to_owned();
            push_decimal(&mut s, id);
            s
        },
    }
}


/// One row of the partition table.
#[derive(Debug, Clone, Copy, PartialEq, Eq)]
pub struct PartitionEntry {
    pub id: u32,
    pub offset: u64,
    pub size: u64,
}

/// The fixed image header and the partition table that follows it.
#[derive(Debug, Clone)]
pub struct FirmwareHeader {
    pub version: u32,
    pub header_size: u32,
    pub chksum_method: u32,
    pub chksum_value: u32,
    pub total_size: u64,
    pub parts: Vec<PartitionEntry>,
}

/// Why a byte string is not a usable NVTPACK image, or a header edit failed.
#[derive(Debug, Clone)]
pub enum FormatError {
    /// Shorter than the 0x80-byte fixed header.
    TooSmall { len: usize },
    /// The first 16 bytes are not the NVTPACK GUID.
    BadGuid { found: Vec<u8> },
    /// The partition table ends past the end of the data.
    TableTruncated { need: u64, have: usize },
    /// A partition table row points past the end of the data.
    PartitionPastEnd { index: usize, id: u32, offset: u64, size: u64, len: usize },
    /// A build tag offset leaves no room for the 0x20-byte tag.
    TagOutside { offset: usize },
}

/// Offset of the partition table (the `header_size` field).
pub open spec fn spec_table_off(s: Seq<u8>) -> int {
    spec_le32(s, 0x14)
}

/// Number of partition table rows.
pub open spec fn spec_part_count(s: Seq<u8>) -> int {
    spec_le32(s, 0x18)
}

/// End of the partition table.
pub open spec fn spec_table_end(s: Seq<u8>) -> int {
    spec_table_off(s) + 12 * spec_part_count(s)
}

/// Row `i` of the partition table.
pub open spec fn spec_entry(s: Seq<u8>, i: int) -> PartitionEntry {
    let e = spec_table_off(s) + 12 * i;
    PartitionEntry {
        offset: spec_le32(s, e) as u64,
        size: spec_le32(s, e + 4) as u64,
        id: spec_le32(s, e + 8) as u32,
    }
}

/// Row `i` lies within the data.
pub open spec fn spec_entry_fits(s: Seq<u8>, i: int) -> bool {
    spec_entry(s, i).offset + spec_entry(s, i).size <= s.len()
}

/// The data starts with the NVTPACK GUID.
pub open spec fn spec_guid_ok(s: Seq<u8>) -> bool {
    s.subrange(0, 16) == spec_fw_guid()
}

/// `s` is an image whose header and table `FirmwareHeader::parse` accepts.
pub open spec fn spec_header_ok(s: Seq<u8>) -> bool {
    &&& s.len() >= 0x80
    &&& spec_guid_ok(s)
    &&& spec_table_end(s) <= s.len()
    &&& forall|i: int| 0 <= i < spec_part_count(s) ==> spec_entry_fits(s, i)
}

/// The parsed header `h` is what the bytes `s` hold.
pub open spec fn spec_header_of(s: Seq<u8>, h: FirmwareHeader) -> bool {
    &&& h.version as int == spec_le32(s, 0x10)
    &&& h.header_size as int == spec_table_off(s)
    &&& h.total_size as int == spec_le32(s, 0x1C)
    &&& h.chksum_method as int == spec_le32(s, 0x20)
    &&& h.chksum_value as int == spec_le32(s, 0x24)
    &&& h.parts@ == Seq::new(spec_part_count(s) as nat, |i: int| spec_entry(s, i))
}

fn guid_matches(data: &[u8]) -> (b: bool)
    requires
        data@.len() >= 16,
    ensures
        b == spec_guid_ok(data@),
{
    let g = FW_GUID;
    assert(g@ == spec_fw_guid());
    let mut i: usize = 0;
    while i < 16
        invariant
            i <= 16,
            data@.len() >= 16,
            g@ == spec_fw_guid(),
            forall|j: int| 0 <= j < i ==> data@[j] == spec_fw_guid()[j],
        decreases 16 - i,
    {
        if data[i] != g[i] {
            assert(data@.subrange(0, 16)[i as int] != spec_fw_guid()[i as int]);
            return false;
        }
        i = i + 1;
    }
    assert(data@.subrange(0, 16) =~= spec_fw_guid());
    true
}

impl FirmwareHeader {
    /// Parse the fixed header and the partition table, checking that every
    /// partition lies within `data`.
    pub fn parse(data: &[u8]) -> (r: Result<FirmwareHeader, FormatError>)
        ensures
            match r {
                Ok(h) => spec_header_ok(data@) && spec_header_of(data@, h),
                Err(FormatError::TooSmall { len }) => data@.len() < 0x80 && len == data@.len(),
                Err(FormatError::BadGuid { found }) => {
                    &&& data@.len() >= 0x80
                    &&& !spec_guid_ok(data@)
                    &&& found@ == data@.subrange(0, 16)
                },
                Err(FormatError::TableTruncated { need, have }) => {
                    &&& data@.len() >= 0x80
                    &&& spec_guid_ok(data@)
                    &&& need == spec_table_end(data@)
                    &&& need > data@.len()
                    &&& have == data@.len()
                },
                Err(FormatError::PartitionPastEnd { index, id, offset, size, len }) => {
                    &&& data@.len() >= 0x80
                    &&& spec_guid_ok(data@)
                    &&& spec_table_end(data@) <= data@.len()
                    &&& index < spec_part_count(data@)
                    &&& forall|j: int| 0 <= j < index ==> spec_entry_fits(data@, j)
                    &&& !spec_entry_fits(data@, index as int)
                    &&& id == spec_entry(data@, index as int).id
                    &&& offset == spec_entry(data@, index as int).offset
                    &&& size == spec_entry(data@, index as int).size
                    &&& len == data@.len()
                },
                Err(FormatError::TagOutside { .. }) => false,
            },
    {
        if data.len() < 0x80 {
            return Err(FormatError::TooSmall { len: data.len() });
        }
        if !guid_matches(data) {
            let mut found: Vec<u8> = Vec::new();
            let mut k: usize = 0;
            while k < 16
                invariant
                    k <= 16,
                    data@.len() >= 0x80,
                    found@ == data@.subrange(0, k as int),
                decreases 16 - k,
            {
                found.push(data[k]);
                k = k + 1;
                assert(found@ =~= data@.subrange(0, k as int));
            }
            return Err(FormatError::BadGuid { found });
        }
        let header_size = rd32(data, 0x14);
        let part_count = rd32(data, 0x18);
        let total_size = rd32(data, 0x1C) as u64;
        let need: u64 = header_size as u64 + part_count as u64 * 12;
        if need > data.len() as u64 {
            return Err(FormatError::TableTruncated { need, have: data.len() });
        }
        let tbl = header_size as usize;
        let count = part_count as usize;
        let mut parts: Vec<PartitionEntry> = Vec::new();
        let mut i: usize = 0;
        while i < count
            invariant
                data@.len() >= 0x80,
                spec_guid_ok(data@),
                tbl == spec_table_off(data@),
                count == spec_part_count(data@),
                spec_table_end(data@) <= data@.len(),
                data@.len() <= usize::MAX,
                i <= count,
                parts@ == Seq::new(i as nat, |j: int| spec_entry(data@, j)),
                forall|j: int| 0 <= j < i ==> spec_entry_fits(data@, j),
            decreases count - i,
        {
            proof {
                assert(i * 12 + 12 <= count * 12) by (nonlinear_arith)
                    requires
                        i < count,
                ;
            }
            let e = tbl + i * 12;
            let offset = rd32(data, e) as u64;
            let size = rd32(data, e + 4) as u64;
            let id = rd32(data, e + 8);
            if offset + size > data.len() as u64 {
                return Err(
                    FormatError::PartitionPastEnd { index: i, id, offset, size, len: data.len() },
                );
            }
            let ghost before = parts@;
            parts.push(PartitionEntry { id, offset, size });
            i = i + 1;
            assert(parts@ =~= Seq::new(i as nat, |j: int| spec_entry(data@, j))) by {
                assert(before =~= Seq::new((i - 1) as nat, |j: int| spec_entry(data@, j)));
            }
        }
        Ok(FirmwareHeader {
            version: rd32(data, 0x10),
            header_size,
            chksum_method: rd32(data, 0x20),
            chksum_value: rd32(data, FW_CHKSUM_OFF),
            total_size,
            parts,
        })
    }

    /// Offset of the first partition: right after the partition table.
    pub fn first_partition_offset(&self) -> (o: u64)
        requires
            self.header_size + 12 * self.parts@.len() <= u64::MAX,
        ensures
            o == self.header_size + 12 * self.parts@.len(),
    {
        self.header_size as u64 + self.parts.len() as u64 * 12
    }
}


// ---------------------------------------------------------------------------
// CKSM container (rootfs / app partitions)
// ---------------------------------------------------------------------------
//
// 0x00 "CKSM"
// 0x04 u32 version 0x16040719
// 0x08 u32 (0)
// 0x0C u32 corrective checksum word
// 0x10 u32 data offset (0x40)
// 0x14 u32 data length
// 0x18 u32 (0)   -- U-Boot verifies over [0x10]+[0x14]+[0x18] bytes
// 0x1C u32 (9)
// 0x20 .. 0x3F zero

pub const CKSM_MAGIC: [u8; 4] = [0x43, 0x4B, 0x53, 0x4D];

pub const CKSM_VERSION: u32 = 0x1604_0719;

pub const CKSM_HDR_LEN: usize = 0x40;

pub const CKSM_CHKSUM_OFF: usize = 0x0C;

/// The fields of a CKSM container header other than its checksum word.
#[derive(Debug, Clone, Copy, PartialEq, Eq)]
pub struct CksmHeader {
    pub version: u32,
    pub field_08: u32,
    pub data_offset: u32,
    pub data_length: u32,
    pub field_18: u32,
    pub field_1c: u32,
}

/// The bytes "CKSM".
pub open spec fn spec_cksm_magic() -> Seq<u8> {
    seq![0x43u8, 0x4B, 0x53, 0x4D]
}

/// `s` starts with a CKSM header.
pub open spec fn spec_is_cksm(s: Seq<u8>) -> bool {
    s.len() >= 0x40 && s.subrange(0, 4) == spec_cksm_magic()
}

/// The CKSM header fields held at the start of `s`.
pub open spec fn spec_cksm_of(s: Seq<u8>) -> CksmHeader {
    CksmHeader {
        version: spec_le32(s, 0x04) as u32,
        field_08: spec_le32(s, 0x08) as u32,
        data_offset: spec_le32(s, 0x10) as u32,
        data_length: spec_le32(s, 0x14) as u32,
        field_18: spec_le32(s, 0x18) as u32,
        field_1c: spec_le32(s, 0x1C) as u32,
    }
}

/// The first 0x20 bytes `build` writes for `h` over a payload of `plen` bytes,
/// with the checksum word still zero.
pub open spec fn spec_cksm_hdr(h: CksmHeader, plen: nat) -> Seq<u8> {
    spec_cksm_magic() + le32_bytes(h.version) + le32_bytes(h.field_08) + zeros(4) + le32_bytes(
        h.data_offset,
    ) + le32_bytes(plen as u32) + le32_bytes(h.field_18) + le32_bytes(h.field_1c)
}

/// A zero-filled partition of `data_offset + payload.len()` bytes with the
/// header written at the start and then the payload at `data_offset`.
pub open spec fn spec_cksm_layout(h: CksmHeader, payload: Seq<u8>) -> Seq<u8> {
    splice(
        splice(zeros((h.data_offset + payload.len()) as nat), 0, spec_cksm_hdr(h, payload.len())),
        h.data_offset as int,
        payload,
    )
}

/// What `CksmHeader::build` returns: the layout with its checksum solved.
pub open spec fn spec_cksm_build(h: CksmHeader, payload: Seq<u8>) -> Seq<u8> {
    spec_solved(spec_cksm_layout(h, payload), CKSM_CHKSUM_OFF as int)
}

fn has_cksm_magic(part: &[u8]) -> (b: bool)
    requires
        part@.len() >= 4,
    ensures
        b == (part@.subrange(0, 4) == spec_cksm_magic()),
{
    let b = part[0] == 0x43 && part[1] == 0x4B && part[2] == 0x53 && part[3] == 0x4D;
    if b {
        assert(part@.subrange(0, 4) =~= spec_cksm_magic());
    } else {
        proof {
            if part@.subrange(0, 4) == spec_cksm_magic() {
                assert(part@.subrange(0, 4)[0] == spec_cksm_magic()[0]);
                assert(part@.subrange(0, 4)[1] == spec_cksm_magic()[1]);
                assert(part@.subrange(0, 4)[2] == spec_cksm_magic()[2]);
                assert(part@.subrange(0, 4)[3] == spec_cksm_magic()[3]);
            }
        }
    }
    b
}

impl CksmHeader {
    /// The CKSM header at the start of `part`, if it carries one.
    pub fn parse(part: &[u8]) -> (r: Option<CksmHeader>)
        ensures
            r == if spec_is_cksm(part@) {
                Some(spec_cksm_of(part@))
            } else {
                None::<CksmHeader>
            },
    {
        if part.len() < CKSM_HDR_LEN || !has_cksm_magic(part) {
            return None;
        }
        Some(
            CksmHeader {
                version: rd32(part, 0x04),
                field_08: rd32(part, 0x08),
                data_offset: rd32(part, 0x10),
                data_length: rd32(part, 0x14),
                field_18: rd32(part, 0x18),
                field_1c: rd32(part, 0x1C),
            },
        )
    }

    /// The whole partition: this header (with `data_length` taken from the
    /// payload) followed, at `data_offset`, by `payload`, checksum solved.
    pub fn build(&self, payload: &[u8]) -> (out: Vec<u8>)
        requires
            self.data_offset + payload@.len() >= 0x20,
            self.data_offset + payload@.len() <= usize::MAX,
        ensures
            out@ == spec_cksm_build(*self, payload@),
    {
        let off = self.data_offset as usize;
        let mut out = zero_vec(off + payload.len());
        let mut hdr: Vec<u8> = Vec::new();
        hdr.push(0x43);
        hdr.push(0x4B);
        hdr.push(0x53);
        hdr.push(0x4D);
        push_le32(&mut hdr, self.version);
        push_le32(&mut hdr, self.field_08);
        push_le32(&mut hdr, 0);
        push_le32(&mut hdr, self.data_offset);
        push_le32(&mut hdr, payload.len() as u32);
        push_le32(&mut hdr, self.field_18);
        push_le32(&mut hdr, self.field_1c);
        assert(le32_bytes(0) =~= zeros(4));
        assert(hdr@ =~= spec_cksm_hdr(*self, payload@.len()));
        write_bytes(&mut out, 0, hdr.as_slice());
        write_bytes(&mut out, off, payload);
        solve(&mut out, CKSM_CHKSUM_OFF);
        out
    }
}

/// A CKSM partition built from a header and a payload parses back to the same
/// header, with `data_length` the payload's length; the payload sits at
/// `data_offset`; and the bootloader accepts the partition.
pub proof fn lemma_cksm_roundtrip(h: CksmHeader, payload: Seq<u8>)
    requires
        h.data_offset >= 0x20,
        h.data_offset + payload.len() >= 0x40,
        payload.len() <= u32::MAX,
    ensures
        spec_is_cksm(spec_cksm_build(h, payload)),
        spec_cksm_of(spec_cksm_build(h, payload)) == (CksmHeader {
            data_length: payload.len() as u32,
            ..h
        }),
        spec_cksm_build(h, payload).subrange(
            h.data_offset as int,
            spec_cksm_build(h, payload).len() as int,
        ) == payload,
        spec_is_valid(spec_cksm_build(h, payload)),
{
    let b = spec_cksm_build(h, payload);
    let l = spec_cksm_layout(h, payload);
    let hd = spec_cksm_hdr(h, payload.len());
    let off = h.data_offset as int;
    lemma_solved_is_valid(l, 0x0C);
    assert(hd.len() == 0x20);
    assert forall|i: int| 0 <= i < 0x20 && !(0x0C <= i < 0x0E) implies #[trigger] b[i] == hd[i] by {}
    assert forall|i: int| off <= i < b.len() implies #[trigger] b[i] == payload[i - off] by {}
    assert(b.subrange(0, 4) =~= spec_cksm_magic());
    assert(b.subrange(off, b.len() as int) =~= payload);
    lemma_le32_fields(b, hd, h, payload.len());
}

#[verifier::spinoff_prover]
#[verifier::rlimit(40)]
proof fn lemma_le32_fields(b: Seq<u8>, hd: Seq<u8>, h: CksmHeader, plen: nat)
    requires
        hd == spec_cksm_hdr(h, plen),
        b.len() >= 0x20,
        forall|i: int| 0 <= i < 0x20 && !(0x0C <= i < 0x0E) ==> #[trigger] b[i] == hd[i],
    ensures
        spec_le32(b, 0x04) == h.version,
        spec_le32(b, 0x08) == h.field_08,
        spec_le32(b, 0x10) == h.data_offset,
        spec_le32(b, 0x14) == plen as u32,
        spec_le32(b, 0x18) == h.field_18,
        spec_le32(b, 0x1C) == h.field_1c,
{
    crate::bytes::lemma_le32_roundtrip(h.version);
    crate::bytes::lemma_le32_roundtrip(h.field_08);
    crate::bytes::lemma_le32_roundtrip(h.data_offset);
    crate::bytes::lemma_le32_roundtrip(plen as u32);
    crate::bytes::lemma_le32_roundtrip(h.field_18);
    crate::bytes::lemma_le32_roundtrip(h.field_1c);
    assert(b[0x04] == hd[0x04] && b[0x05] == hd[0x05]
        && b[0x06] == hd[0x06] && b[0x07] == hd[0x07]);
    assert(b[0x08] == hd[0x08] && b[0x09] == hd[0x09]
        && b[0x0A] == hd[0x0A] && b[0x0B] == hd[0x0B]);
    assert(b[0x10] == hd[0x10] && b[0x11] == hd[0x11]
        && b[0x12] == hd[0x12] && b[0x13] == hd[0x13]);
    assert(b[0x14] == hd[0x14] && b[0x15] == hd[0x15]
        && b[0x16] == hd[0x16] && b[0x17] == hd[0x17]);
    assert(b[0x18] == hd[0x18] && b[0x19] == hd[0x19]
        && b[0x1A] == hd[0x1A] && b[0x1B] == hd[0x1B]);
    assert(b[0x1C] == hd[0x1C] && b[0x1D] == hd[0x1D]
        && b[0x1E] == hd[0x1E] && b[0x1F] == hd[0x1F]);
}


// ---------------------------------------------------------------------------
// U-Boot legacy uImage container (kernel partition), big-endian
// ---------------------------------------------------------------------------

pub const UIMAGE_MAGIC: u32 = 0x2705_1956;

pub const UIMAGE_HDR_LEN: usize = 0x40;

/// The CRC-32 (IEEE) that `crc32fast::hash` computes over `data`.
pub uninterp spec fn crc32(data: Seq<u8>) -> u32;

/// `crc32fast::hash`: the CRC-32 of `data`, a function of the bytes alone.
#[verifier::external_body]
pub(crate) fn crc32_hash(data: &[u8]) -> (c: u32)
    ensures
        c == crc32(data@),
{
    crc32fast::hash(data)
}

/// The fields of a legacy uImage header other than its size and CRCs.
#[derive(Debug, Clone)]
pub struct UImageHeader {
    pub time: u32,
    pub load: u32,
    pub entry: u32,
    pub os: u8,
    pub arch: u8,
    pub img_type: u8,
    pub comp: u8,
    pub name: String,
}

/// `s` starts with a legacy uImage header.
pub open spec fn spec_is_uimage(s: Seq<u8>) -> bool {
    s.len() >= 0x40 && spec_be32(s, 0) == UIMAGE_MAGIC
}

/// The image name bytes of a uImage header: its 32-byte name field up to the
/// first NUL.
pub open spec fn spec_uimage_name_bytes(s: Seq<u8>) -> Seq<u8> {
    until_nul(s.subrange(0x20, 0x40))
}

/// The header `u` is what the uImage header at the start of `s` holds.
pub open spec fn spec_uimage_of(s: Seq<u8>, u: UImageHeader) -> bool {
    &&& u.time as int == spec_be32(s, 0x08)
    &&& u.load as int == spec_be32(s, 0x10)
    &&& u.entry as int == spec_be32(s, 0x14)
    &&& u.os == s[0x1C]
    &&& u.arch == s[0x1D]
    &&& u.img_type == s[0x1E]
    &&& u.comp == s[0x1F]
    &&& u.name@ == utf8_lossy(spec_uimage_name_bytes(s))
    &&& vstd::utf8::valid_utf8(spec_uimage_name_bytes(s)) ==> u.name@ == vstd::utf8::decode_utf8(
        spec_uimage_name_bytes(s),
    )
}

/// How many name bytes `build` keeps: at most 31, so the field stays
/// NUL-terminated.
pub open spec fn spec_name_keep(name: Seq<char>) -> int {
    let n = vstd::utf8::encode_utf8(name).len() as int;
    if n < 31 {
        n
    } else {
        31
    }
}

/// The 32-byte name field `build` writes: the name's UTF-8 bytes, cut to
/// 31, zero-padded.
pub open spec fn spec_name_field(name: Seq<char>) -> Seq<u8> {
    vstd::utf8::encode_utf8(name).subrange(0, spec_name_keep(name)) + zeros(
        (32 - spec_name_keep(name)) as nat,
    )
}

/// The 0x40-byte header `build` writes, given the two CRC words.
pub open spec fn spec_uimage_hdr(h: UImageHeader, plen: nat, hcrc: u32, dcrc: u32) -> Seq<u8> {
    be32_bytes(UIMAGE_MAGIC) + be32_bytes(hcrc) + be32_bytes(h.time) + be32_bytes(plen as u32)
        + be32_bytes(h.load) + be32_bytes(h.entry) + be32_bytes(dcrc) + seq![
        h.os,
        h.arch,
        h.img_type,
        h.comp,
    ] + spec_name_field(h.name@)
}

/// What `UImageHeader::build` returns: the header, whose header CRC is taken
/// over itself with that field zero, then the payload.
pub open spec fn spec_uimage_build(h: UImageHeader, payload: Seq<u8>) -> Seq<u8> {
    let dcrc = crc32(payload);
    let hcrc = crc32(spec_uimage_hdr(h, payload.len(), 0, dcrc));
    spec_uimage_hdr(h, payload.len(), hcrc, dcrc) + payload
}

impl UImageHeader {
    /// The uImage header at the start of `part`, if it carries one.
    pub fn parse(part: &[u8]) -> (r: Option<UImageHeader>)
        ensures
            r is None <==> !spec_is_uimage(part@),
            r matches Some(u) ==> spec_uimage_of(part@, u),
    {
        if part.len() < UIMAGE_HDR_LEN {
            return None;
        }
        if rd32_be(part, 0) != UIMAGE_MAGIC {
            return None;
        }
        let name_bytes = &part[0x20..0x40];
        let end = nul_terminated_len(name_bytes);
        let name_slice = &name_bytes[0..end];
        assert(name_slice@ =~= spec_uimage_name_bytes(part@));
        Some(
            UImageHeader {
                time: rd32_be(part, 0x08),
                load: rd32_be(part, 0x10),
                entry: rd32_be(part, 0x14),
                os: part[0x1C],
                arch: part[0x1D],
                img_type: part[0x1E],
                comp: part[0x1F],
                name: utf8_lossy_string(name_slice),
            },
        )
    }

    /// The whole partition: a 0x40-byte header for `payload`, with both CRCs
    /// computed, followed by the payload.
    pub fn build(&self, payload: &[u8]) -> (out: Vec<u8>)
        ensures
            out@ == spec_uimage_build(*self, payload@),
    {
        let dcrc = crc32_hash(payload);
        let mut h: Vec<u8> = Vec::new();
        push_be32(&mut h, UIMAGE_MAGIC);
        push_be32(&mut h, 0);
        push_be32(&mut h, self.time);
        push_be32(&mut h, payload.len() as u32);
        push_be32(&mut h, self.load);
        push_be32(&mut h, self.entry);
        push_be32(&mut h, dcrc);
        h.push(self.os);
        h.push(self.arch);
        h.push(self.img_type);
        h.push(self.comp);
        let n = self.name.as_str().as_bytes();
        let keep = if n.len() < 31 {
            n.len()
        } else {
            31
        };
        let ghost h0 = h@;
        let mut i: usize = 0;
        while i < 32
            invariant
                i <= 32,
                keep <= n@.len(),
                keep <= 31,
                h@ == h0 + Seq::new(i as nat, |j: int| if j < keep { n@[j] } else { 0u8 }),
            decreases 32 - i,
        {
            if i < keep {
                h.push(n[i]);
            } else {
                h.push(0);
            }
            i = i + 1;
            assert(h@ =~= h0 + Seq::new(i as nat, |j: int| if j < keep { n@[j] } else { 0u8 }));
        }
        assert(Seq::new(32, |j: int| if j < keep { n@[j] } else { 0u8 }) =~= spec_name_field(
            self.name@,
        ));
        assert(h@ =~= spec_uimage_hdr(*self, payload@.len(), 0, dcrc));
        let hcrc = crc32_hash(h.as_slice());
        let mut c: Vec<u8> = Vec::new();
        push_be32(&mut c, hcrc);
        write_bytes(&mut h, 4, c.as_slice());
        assert(h@ =~= spec_uimage_hdr(*self, payload@.len(), hcrc, dcrc));
        let mut k: usize = 0;
        let ghost hh = h@;
        while k < payload.len()
            invariant
                k <= payload@.len(),
                h@ == hh + payload@.subrange(0, k as int),
            decreases payload@.len() - k,
        {
            h.push(payload[k]);
            k = k + 1;
            assert(h@ =~= hh + payload@.subrange(0, k as int));
        }
        assert(payload@.subrange(0, payload@.len() as int) =~= payload@);
        h
    }
}


/// Whatever the payload, the header `build` writes holds the creation time at
/// 0x08, the load address at 0x10 and the entry point at 0x14 (each
/// big-endian), and the OS, architecture, image type and compression bytes at
/// 0x1C..0x20.
pub proof fn lemma_uimage_build_fields(h: UImageHeader, payload: Seq<u8>)
    ensures
        spec_uimage_build(h, payload).len() == 0x40 + payload.len(),
        spec_be32(spec_uimage_build(h, payload), 0x08) == h.time,
        spec_be32(spec_uimage_build(h, payload), 0x10) == h.load,
        spec_be32(spec_uimage_build(h, payload), 0x14) == h.entry,
        spec_uimage_build(h, payload)[0x1C] == h.os,
        spec_uimage_build(h, payload)[0x1D] == h.arch,
        spec_uimage_build(h, payload)[0x1E] == h.img_type,
        spec_uimage_build(h, payload)[0x1F] == h.comp,
{
    let b = spec_uimage_build(h, payload);
    let dcrc = crc32(payload);
    let hcrc = crc32(spec_uimage_hdr(h, payload.len(), 0, dcrc));
    let hd = spec_uimage_hdr(h, payload.len(), hcrc, dcrc);
    assert(hd.len() == 0x40);
    assert forall|i: int| 0 <= i < 0x40 implies #[trigger] b[i] == hd[i] by {}
    crate::bytes::lemma_be32_roundtrip(h.time);
    crate::bytes::lemma_be32_roundtrip(h.load);
    crate::bytes::lemma_be32_roundtrip(h.entry);
    assert(hd.subrange(0x08, 0x0C) =~= be32_bytes(h.time));
    assert(hd.subrange(0x10, 0x14) =~= be32_bytes(h.load));
    assert(hd.subrange(0x14, 0x18) =~= be32_bytes(h.entry));
    assert(hd[0x08] == be32_bytes(h.time)[0] && hd[0x09] == be32_bytes(h.time)[1]
        && hd[0x0A] == be32_bytes(h.time)[2] && hd[0x0B] == be32_bytes(h.time)[3]);
    assert(hd[0x10] == be32_bytes(h.load)[0] && hd[0x11] == be32_bytes(h.load)[1]
        && hd[0x12] == be32_bytes(h.load)[2] && hd[0x13] == be32_bytes(h.load)[3]);
    assert(hd[0x14] == be32_bytes(h.entry)[0] && hd[0x15] == be32_bytes(h.entry)[1]
        && hd[0x16] == be32_bytes(h.entry)[2] && hd[0x17] == be32_bytes(h.entry)[3]);
}

/// A uImage partition built from a header and a payload parses back to the
/// same fields; it records the payload's length and CRC, and the CRC of the
/// header with that field zero; the payload follows the header; and a name
/// of at most 31 UTF-8 bytes without a NUL comes back unchanged.
pub proof fn lemma_uimage_roundtrip(h: UImageHeader, payload: Seq<u8>)
    requires
        payload.len() <= u32::MAX,
    ensures
        spec_is_uimage(spec_uimage_build(h, payload)),
        spec_be32(spec_uimage_build(h, payload), 0x08) == h.time,
        spec_be32(spec_uimage_build(h, payload), 0x10) == h.load,
        spec_be32(spec_uimage_build(h, payload), 0x14) == h.entry,
        spec_uimage_build(h, payload)[0x1C] == h.os,
        spec_uimage_build(h, payload)[0x1D] == h.arch,
        spec_uimage_build(h, payload)[0x1E] == h.img_type,
        spec_uimage_build(h, payload)[0x1F] == h.comp,
        spec_be32(spec_uimage_build(h, payload), 0x0C) == payload.len(),
        spec_be32(spec_uimage_build(h, payload), 0x18) == crc32(payload),
        spec_be32(spec_uimage_build(h, payload), 0x04) == crc32(
            splice(spec_uimage_build(h, payload).subrange(0, 0x40), 4, zeros(4)),
        ),
        spec_uimage_build(h, payload).subrange(0x40, spec_uimage_build(h, payload).len() as int)
            == payload,
        ({
            let nb = vstd::utf8::encode_utf8(h.name@);
            nb.len() <= 31 && (forall|j: int| 0 <= j < nb.len() ==> nb[j] != 0) ==> {
                &&& spec_uimage_name_bytes(spec_uimage_build(h, payload)) == nb
                &&& vstd::utf8::valid_utf8(nb)
                &&& vstd::utf8::decode_utf8(nb) == h.name@
            }
        }),
{
    let b = spec_uimage_build(h, payload);
    let dcrc = crc32(payload);
    let h0 = spec_uimage_hdr(h, payload.len(), 0, dcrc);
    let hcrc = crc32(h0);
    let hd = spec_uimage_hdr(h, payload.len(), hcrc, dcrc);
    assert(hd.len() == 0x40);
    assert(b.subrange(0, 0x40) =~= hd);
    assert(b.subrange(0x40, b.len() as int) =~= payload);
    assert forall|i: int| 0 <= i < 0x40 implies #[trigger] b[i] == hd[i] by {}
    crate::bytes::lemma_be32_roundtrip(UIMAGE_MAGIC);
    crate::bytes::lemma_be32_roundtrip(hcrc);
    crate::bytes::lemma_be32_roundtrip(h.time);
    crate::bytes::lemma_be32_roundtrip(payload.len() as u32);
    crate::bytes::lemma_be32_roundtrip(h.load);
    crate::bytes::lemma_be32_roundtrip(h.entry);
    crate::bytes::lemma_be32_roundtrip(dcrc);
    assert(be32_bytes(0) =~= zeros(4));
    assert(splice(hd, 4, zeros(4)) =~= h0);
    let nb = vstd::utf8::encode_utf8(h.name@);
    if nb.len() <= 31 && (forall|j: int| 0 <= j < nb.len() ==> nb[j] != 0) {
        let f = b.subrange(0x20, 0x40);
        assert(f =~= spec_name_field(h.name@));
        lemma_find_nul_at(f, 0, nb.len() as int);
        assert(until_nul(f) =~= nb);
        vstd::utf8::encode_utf8_valid_utf8(h.name@);
        vstd::utf8::encode_utf8_decode_utf8(h.name@);
    }
}


// ---------------------------------------------------------------------------
// Novatek build tag (atf / uboot partitions)
// ---------------------------------------------------------------------------
//
// +0x00 char tag[8]      "bl51102\0" / "ub51102 "
// +0x08 char version[8]
// +0x10 char date[8]
// +0x18 u32  partition size
// +0x1C u16  magic 0xAA55
// +0x1E u16  corrective checksum word

pub const NVT_TAG_MAGIC: u16 = 0xAA55;

pub const NVT_TAG_LEN: usize = 0x20;

/// Byte offset of the corrective word, relative to the start of the tag.
pub const NVT_TAG_CHKSUM_OFF: usize = 0x1E;

/// A build tag found inside a raw partition.
#[derive(Debug, Clone)]
pub struct NvtTag {
    pub offset: usize,
    pub tag: String,
    pub version: String,
    pub date: String,
}

/// A build tag starts at `off` in the partition `s`: it fits, its size field
/// equals the partition length (as a `u32`) and its magic is 0xAA55.
pub open spec fn spec_tag_at(s: Seq<u8>, off: int) -> bool {
    &&& 0 <= off
    &&& off + 0x20 <= s.len()
    &&& spec_le32(s, off + 0x18) == (s.len() as u32)
    &&& le16(s, off + 0x1C) == NVT_TAG_MAGIC
}

/// A text field of the tag at `off`: bytes `a..b` of the tag up to the first
/// NUL, decoded and trimmed.
pub open spec fn spec_tag_text(s: Seq<u8>, off: int, a: int, b: int) -> Seq<char> {
    trimmed(utf8_lossy(until_nul(s.subrange(off + a, off + b))))
}

/// The tag `t` is the first one that a scan of `s` in 4-byte steps finds.
pub open spec fn spec_first_tag(s: Seq<u8>, t: NvtTag) -> bool {
    &&& t.offset % 4 == 0
    &&& spec_tag_at(s, t.offset as int)
    &&& forall|o: int| 0 <= o < t.offset && o % 4 == 0 ==> !spec_tag_at(s, o)
    &&& t.tag@ == spec_tag_text(s, t.offset as int, 0x00, 0x08)
    &&& t.version@ == spec_tag_text(s, t.offset as int, 0x08, 0x10)
    &&& t.date@ == spec_tag_text(s, t.offset as int, 0x10, 0x18)
}

fn tag_text(part: &[u8], off: usize, a: usize, b: usize) -> (t: String)
    requires
        a <= b <= 0x20,
        off + 0x20 <= part@.len(),
    ensures
        t@ == spec_tag_text(part@, off as int, a as int, b as int),
{
    let _len = part.len();  // bounds the length by usize::MAX for the offsets below
    let f = &part[off + a..off + b];
    let e = nul_terminated_len(f);
    let lossy = utf8_lossy_string(&f[0..e]);
    let t = trim_str(lossy.as_str());
    t.to_owned()
}

/// Locate the build tag inside a raw partition by looking, in 4-byte steps,
/// for the 0xAA55 magic preceded by a size field equal to the partition
/// length.
pub fn find_nvt_tag(part: &[u8]) -> (r: Option<NvtTag>)
    ensures
        match r {
            None => forall|o: int| 0 <= o && o % 4 == 0 ==> !spec_tag_at(part@, o),
            Some(t) => spec_first_tag(part@, t),
        },
{
    let want = part.len() as u32;
    let mut off: usize = 0;
    while off <= part.len() && NVT_TAG_LEN <= part.len() - off
        invariant
            off % 4 == 0,
            want == part@.len() as u32,
            forall|o: int| 0 <= o < off && o % 4 == 0 ==> !spec_tag_at(part@, o),
        decreases part@.len() - off,
    {
        if rd32(part, off + 0x18) == want && rd16(part, off + 0x1C) == NVT_TAG_MAGIC {
            return Some(
                NvtTag {
                    offset: off,
                    tag: tag_text(part, off, 0x00, 0x08),
                    version: tag_text(part, off, 0x08, 0x10),
                    date: tag_text(part, off, 0x10, 0x18),
                },
            );
        }
        off = off + 4;
    }
    None
}

/// The partition `fix_nvt_tag` leaves: size field set to the partition
/// length, magic set, corrective word solved.
pub open spec fn spec_fix_tag(s: Seq<u8>, off: int) -> Seq<u8> {
    spec_solved(
        splice(
            splice(s, off + 0x18, le32_bytes(s.len() as u32)),
            off + 0x1C,
            le16_bytes(NVT_TAG_MAGIC),
        ),
        off + 0x1E,
    )
}

/// Rewrite the size field and re-solve the corrective word of a build tag.
pub fn fix_nvt_tag(part: &mut Vec<u8>, tag_off: usize) -> (r: Result<u16, FormatError>)
    ensures
        match r {
            Ok(v) => {
                &&& tag_off + 0x20 <= old(part)@.len()
                &&& final(part)@ == spec_fix_tag(old(part)@, tag_off as int)
                &&& v == spec_solve_word(
                    splice(
                        splice(old(part)@, tag_off + 0x18, le32_bytes(old(part)@.len() as u32)),
                        tag_off + 0x1C,
                        le16_bytes(NVT_TAG_MAGIC),
                    ),
                    tag_off + 0x1E,
                )
                &&& tag_off % 2 == 0 ==> spec_is_valid(final(part)@)
            },
            Err(e) => {
                &&& tag_off + 0x20 > old(part)@.len()
                &&& e == FormatError::TagOutside { offset: tag_off }
                &&& final(part)@ == old(part)@
            },
        },
{
    if part.len() < NVT_TAG_LEN || tag_off > part.len() - NVT_TAG_LEN {
        return Err(FormatError::TagOutside { offset: tag_off });
    }
    let size = part.len() as u32;
    let mut b: Vec<u8> = Vec::new();
    push_le32(&mut b, size);
    write_bytes(part, tag_off + 0x18, b.as_slice());
    let mut m: Vec<u8> = Vec::new();
    m.push(0x55);
    m.push(0xAA);
    assert(m@ =~= le16_bytes(NVT_TAG_MAGIC));
    write_bytes(part, tag_off + 0x1C, m.as_slice());
    let v = solve(part, tag_off + NVT_TAG_CHKSUM_OFF);
    proof {
        if tag_off % 2 == 0 {
            lemma_solved_is_valid(
                splice(
                    splice(old(part)@, tag_off + 0x18, le32_bytes(old(part)@.len() as u32)),
                    tag_off + 0x1C,
                    le16_bytes(NVT_TAG_MAGIC),
                ),
                tag_off + 0x1E,
            );
        }
    }
    Ok(v)
}

/// Fixing a tag whose size field and magic are already right, in a partition
/// the bootloader already accepts, changes nothing.
pub proof fn lemma_fix_tag_identity(s: Seq<u8>, off: int)
    requires
        spec_tag_at(s, off),
        off % 2 == 0,
        spec_is_valid(s),
    ensures
        spec_fix_tag(s, off) == s,
{
    let w = le32_bytes(s.len() as u32);
    crate::bytes::lemma_le32_roundtrip(s.len() as u32);
    assert(w[0] == s[off + 0x18] && w[1] == s[off + 0x19] && w[2] == s[off + 0x1A] && w[3] == s[
        off + 0x1B]) by {
        let v = s.len() as u32;
        let a = s[off + 0x18];
        let b = s[off + 0x19];
        let c = s[off + 0x1A];
        let d = s[off + 0x1B];
        assert(v == a + 0x100 * b + 0x10000 * c + 0x1000000 * d);
        assert(v == a as u32 + 0x100 * (b as u32) + 0x10000 * (c as u32) + 0x1000000 * (d as u32)
            ==> (v % 0x100 == a && (v / 0x100) % 0x100 == b && (v / 0x10000) % 0x100 == c && (v
            / 0x1000000) % 0x100 == d)) by (bit_vector);
    }
    let s1 = splice(s, off + 0x18, w);
    assert(s1 =~= s);
    let m = le16_bytes(NVT_TAG_MAGIC);
    assert(s[off + 0x1C] == 0x55 && s[off + 0x1D] == 0xAA);
    let s2 = splice(s1, off + 0x1C, m);
    assert(s2 =~= s);
    lemma_solve_valid_is_identity(s, off + 0x1E);
}

/// Fixing the same tag twice gives what fixing it once gave.
pub proof fn lemma_fix_tag_idempotent(s: Seq<u8>, off: int)
    requires
        0 <= off,
        off + 0x20 <= s.len(),
        off % 2 == 0,
    ensures
        spec_fix_tag(spec_fix_tag(s, off), off) == spec_fix_tag(s, off),
{
    let t = spec_fix_tag(s, off);
    let s2 = splice(
        splice(s, off + 0x18, le32_bytes(s.len() as u32)),
        off + 0x1C,
        le16_bytes(NVT_TAG_MAGIC),
    );
    lemma_solved_is_valid(s2, off + 0x1E);
    assert(t.len() == s.len());
    crate::bytes::lemma_le32_roundtrip(s.len() as u32);
    assert(t[off + 0x18] == s2[off + 0x18]);
    assert(t[off + 0x19] == s2[off + 0x19]);
    assert(t[off + 0x1A] == s2[off + 0x1A]);
    assert(t[off + 0x1B] == s2[off + 0x1B]);
    assert(t[off + 0x1C] == 0x55 && t[off + 0x1D] == 0xAA);
    assert(spec_le32(t, off + 0x18) == spec_le32(le32_bytes(s.len() as u32), 0));
    assert(spec_tag_at(t, off));
    lemma_fix_tag_identity(t, off);
}

} // verus!
