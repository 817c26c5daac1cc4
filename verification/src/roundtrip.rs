//! The byte-exact round trip: splitting an image laid out the way the packer
//! lays images out, and packing the pieces again, gives back the same bytes.

use vstd::prelude::*;
use crate::bytes::{
    be32_bytes, le32_bytes, lemma_be32_bytes_of, lemma_le32_bytes_of, spec_be32, spec_le32, splice,
    zeros,
};
use crate::checksum::{
    lemma_solve_valid_is_identity, put_le16, spec_is_valid, spec_solve_word, spec_solved,
};
use crate::format::{
    crc32, lemma_fix_tag_identity, spec_cksm_build, spec_cksm_hdr, spec_cksm_layout, spec_cksm_of,
    spec_entry, spec_header_ok, spec_is_cksm, spec_is_uimage, spec_name_field, spec_name_keep,
    spec_part_count, spec_table_off, spec_uimage_build, spec_uimage_hdr, spec_uimage_name_bytes,
    PartitionEntry, FW_CHKSUM_OFF, UIMAGE_MAGIC,
};
use crate::inspect::{spec_blob, spec_has_tag};
use crate::manifest::{spec_is_pow2, spec_partition_complete, Container, Partition, UImage};
use crate::pack::{
    spec_body, spec_cksm_header, spec_complete_builder, spec_finish, spec_fw_hdr, spec_pack_blob,
    spec_rows, spec_start, spec_table_bytes, spec_uimage_header, BuilderView, PackError,
};
use crate::text::find_nul;
use crate::unpack::{
    spec_cksm_fields, spec_container, spec_derive_align, spec_payload_range, spec_tag_field,
    spec_uimage_fields, spec_unpacked, UnpackError, UnpackedPart,
};

verus! {

/// A CKSM partition is laid out the way `CksmHeader::build` lays one out:
/// the payload starts at or after 0x20 and ends the partition, the bytes
/// between the header fields and the payload are zero, the upper half of the
/// checksum field is zero, and the bootloader accepts the partition.
pub open spec fn spec_canonical_cksm(b: Seq<u8>) -> bool {
    let c = spec_cksm_of(b);
    &&& c.data_offset >= 0x20
    &&& c.data_offset + c.data_length == b.len()
    &&& b[0x0E] == 0
    &&& b[0x0F] == 0
    &&& forall|j: int| 0x20 <= j < c.data_offset ==> #[trigger] b[j] == 0
    &&& spec_is_valid(b)
}

/// Rebuilding a canonical CKSM partition from the fields and payload it was
/// split into gives back the same bytes.
#[verifier::spinoff_prover]
#[verifier::rlimit(40)]
pub proof fn lemma_cksm_blob_identity(b: Seq<u8>)
    requires
        spec_is_cksm(b),
        spec_canonical_cksm(b),
    ensures
        ({
            let c = spec_cksm_of(b);
            let payload = b.subrange(c.data_offset as int, c.data_offset + c.data_length);
            spec_cksm_build(spec_cksm_header(spec_cksm_fields(c), payload.len()), payload) == b
        }),
{
    let c = spec_cksm_of(b);
    let off = c.data_offset as int;
    let payload = b.subrange(off, off + c.data_length);
    let h = spec_cksm_header(spec_cksm_fields(c), payload.len());
    let hdr = spec_cksm_hdr(h, payload.len());
    let z = put_le16(b, 0x0C, 0);
    lemma_le32_bytes_of(b, 0x04);
    lemma_le32_bytes_of(b, 0x08);
    lemma_le32_bytes_of(b, 0x10);
    lemma_le32_bytes_of(b, 0x14);
    lemma_le32_bytes_of(b, 0x18);
    lemma_le32_bytes_of(b, 0x1C);
    assert(hdr.len() == 0x20);
    assert(hdr.subrange(0, 4) =~= b.subrange(0, 4));
    assert(hdr.subrange(4, 8) =~= le32_bytes(c.version));
    assert(hdr.subrange(8, 12) =~= le32_bytes(c.field_08));
    assert(hdr.subrange(16, 20) =~= le32_bytes(c.data_offset));
    assert(hdr.subrange(20, 24) =~= le32_bytes(payload.len() as u32));
    assert(hdr.subrange(24, 28) =~= le32_bytes(c.field_18));
    assert(hdr.subrange(28, 32) =~= le32_bytes(c.field_1c));
    assert forall|j: int| 0 <= j < 0x20 implies #[trigger] hdr[j] == z[j] by {
        if j < 4 {
            assert(hdr[j] == hdr.subrange(0, 4)[j]);
        } else if j < 8 {
            assert(hdr[j] == hdr.subrange(4, 8)[j - 4]);
        } else if j < 12 {
            assert(hdr[j] == hdr.subrange(8, 12)[j - 8]);
        } else if j < 16 {
        } else if j < 20 {
            assert(hdr[j] == hdr.subrange(16, 20)[j - 16]);
        } else if j < 24 {
            assert(hdr[j] == hdr.subrange(20, 24)[j - 20]);
        } else if j < 28 {
            assert(hdr[j] == hdr.subrange(24, 28)[j - 24]);
        } else {
            assert(hdr[j] == hdr.subrange(28, 32)[j - 28]);
        }
    }
    let l = spec_cksm_layout(h, payload);
    assert(l =~= z);
    assert(put_le16(z, 0x0C, 0) =~= put_le16(b, 0x0C, 0));
    assert(spec_solve_word(z, 0x0C) == spec_solve_word(b, 0x0C));
    assert(spec_solved(z, 0x0C) =~= spec_solved(b, 0x0C));
    lemma_solve_valid_is_identity(b, 0x0C);
}

/// Re-wrapping a raw partition changes nothing when any build tag it records
/// is the first one found and the partition carrying it is accepted by the
/// bootloader.
#[verifier::spinoff_prover]
#[verifier::rlimit(60)]
pub proof fn lemma_raw_blob_identity(p: Partition, b: Seq<u8>)
    requires
        p.container == Container::Raw,
        b.len() <= u32::MAX,
        spec_tag_field(b, p.nvt_tag_offset),
        spec_has_tag(b) ==> spec_is_valid(b),
    ensures
        spec_pack_blob(p, b) == Ok::<Seq<u8>, crate::pack::PackError>(b),
{
    if let Some(o) = p.nvt_tag_offset {
        let off = choose|off: int|
            {
                &&& off % 4 == 0
                &&& #[trigger] crate::format::spec_tag_at(b, off)
                &&& forall|k: int| 0 <= k < off && k % 4 == 0 ==> !crate::format::spec_tag_at(b, k)
                &&& o == off as u32
            };
        assert(o == off);
        lemma_fix_tag_identity(b, o as int);
    }
}


/// A uImage partition is laid out the way `UImageHeader::build` lays one
/// out: the payload its header sizes ends the partition, both CRCs are
/// right, and the name is valid UTF-8 of at most 31 bytes followed only by
/// zeros.
pub open spec fn spec_canonical_uimage(b: Seq<u8>) -> bool {
    let nb = spec_uimage_name_bytes(b);
    &&& 0x40 + spec_be32(b, 0x0C) == b.len()
    &&& spec_be32(b, 0x18) == crc32(b.subrange(0x40, b.len() as int))
    &&& spec_be32(b, 0x04) == crc32(splice(b.subrange(0, 0x40), 4, zeros(4)))
    &&& vstd::utf8::valid_utf8(nb)
    &&& nb.len() <= 31
    &&& forall|j: int| 0x20 + nb.len() <= j < 0x40 ==> #[trigger] b[j] == 0
}

proof fn lemma_find_nul_bounds(s: Seq<u8>, i: int)
    requires
        0 <= i <= s.len(),
    ensures
        i <= find_nul(s, i) <= s.len(),
        forall|j: int| i <= j < find_nul(s, i) ==> s[j] != 0,
    decreases s.len() - i,
{
    if i < s.len() && s[i] != 0 {
        lemma_find_nul_bounds(s, i + 1);
    }
}

/// The name field of a canonical uImage header is what `build` writes for
/// the name that was split out of it.
proof fn lemma_name_field(b: Seq<u8>, u: UImage)
    requires
        b.len() >= 0x40,
        spec_uimage_fields(b, u),
        spec_canonical_uimage(b),
    ensures
        spec_name_field(u.name@) == b.subrange(0x20, 0x40),
{
    let f = b.subrange(0x20, 0x40);
    let nb = spec_uimage_name_bytes(b);
    lemma_find_nul_bounds(f, 0);
    vstd::utf8::decode_utf8_encode_utf8(nb);
    assert(vstd::utf8::encode_utf8(u.name@) == nb);
    assert(spec_name_keep(u.name@) == nb.len());
    assert(spec_name_field(u.name@) =~= f);
}

/// Rebuilding a canonical uImage partition from the fields and payload it
/// was split into gives back the same bytes.
pub proof fn lemma_uimage_blob_identity(b: Seq<u8>, u: UImage)
    requires
        spec_is_uimage(b),
        spec_uimage_fields(b, u),
        spec_canonical_uimage(b),
    ensures
        spec_uimage_build(spec_uimage_header(u), b.subrange(0x40, b.len() as int)) == b,
{
    let payload = b.subrange(0x40, b.len() as int);
    let h = spec_uimage_header(u);
    let dcrc = crc32(payload);
    let plen = payload.len();
    let h0 = spec_uimage_hdr(h, plen, 0, dcrc);
    let hb = b.subrange(0, 0x40);
    lemma_name_field(b, u);
    lemma_be32_bytes_of(b, 0x00);
    lemma_be32_bytes_of(b, 0x04);
    lemma_be32_bytes_of(b, 0x08);
    lemma_be32_bytes_of(b, 0x0C);
    lemma_be32_bytes_of(b, 0x10);
    lemma_be32_bytes_of(b, 0x14);
    lemma_be32_bytes_of(b, 0x18);
    assert(be32_bytes(0) =~= zeros(4));
    let z = splice(hb, 4, zeros(4));
    assert(h0 =~= z) by {
        assert(h0.subrange(0, 4) == be32_bytes(UIMAGE_MAGIC));
        assert forall|j: int| 0 <= j < 0x40 implies #[trigger] h0[j] == z[j] by {
            if j < 4 {
                assert(h0[j] == be32_bytes(UIMAGE_MAGIC)[j]);
                assert(b.subrange(0, 4)[j] == b[j]);
            } else if j < 8 {
            } else if j < 12 {
                assert(h0[j] == be32_bytes(h.time)[j - 8]);
                assert(b.subrange(8, 12)[j - 8] == b[j]);
            } else if j < 16 {
                assert(h0[j] == be32_bytes(plen as u32)[j - 12]);
                assert(b.subrange(12, 16)[j - 12] == b[j]);
            } else if j < 20 {
                assert(h0[j] == be32_bytes(h.load)[j - 16]);
                assert(b.subrange(16, 20)[j - 16] == b[j]);
            } else if j < 24 {
                assert(h0[j] == be32_bytes(h.entry)[j - 20]);
                assert(b.subrange(20, 24)[j - 20] == b[j]);
            } else if j < 28 {
                assert(h0[j] == be32_bytes(dcrc)[j - 24]);
                assert(b.subrange(24, 28)[j - 24] == b[j]);
            } else if j < 32 {
            } else {
                assert(h0[j] == spec_name_field(u.name@)[j - 32]);
                assert(b.subrange(0x20, 0x40)[j - 32] == b[j]);
            }
        }
    }
    let hcrc = crc32(h0);
    let h1 = spec_uimage_hdr(h, plen, hcrc, dcrc);
    assert(h1 =~= hb) by {
        assert forall|j: int| 0 <= j < 0x40 implies #[trigger] h1[j] == hb[j] by {
            if 4 <= j < 8 {
                assert(h1[j] == be32_bytes(hcrc)[j - 4]);
                assert(b.subrange(4, 8)[j - 4] == b[j]);
            } else {
                assert(h1[j] == h0[j]);
            }
        }
    }
    assert(spec_uimage_build(h, payload) =~= b);
}


/// A partition survives the round trip as it is split: a CKSM or uImage
/// partition (when not split raw) must be canonical for its container; any
/// other partition in which a build tag is found must be accepted by the
/// bootloader.
pub open spec fn spec_canonical_blob(b: Seq<u8>, raw: bool) -> bool {
    if !raw && spec_is_cksm(b) {
        spec_canonical_cksm(b)
    } else if !raw && spec_is_uimage(b) {
        spec_canonical_uimage(b)
    } else {
        spec_has_tag(b) ==> spec_is_valid(b)
    }
}

/// The rows of the partition table of `s`.
pub open spec fn spec_parts(s: Seq<u8>) -> Seq<PartitionEntry> {
    Seq::new(spec_part_count(s) as nat, |i: int| spec_entry(s, i))
}

/// The partitions of `s`, in table order.
pub open spec fn spec_blobs(s: Seq<u8>) -> Seq<Seq<u8>> {
    Seq::new(spec_part_count(s) as nat, |i: int| spec_blob(s, spec_entry(s, i)))
}

/// Offset of the first partition of `s`.
pub open spec fn spec_first(s: Seq<u8>) -> nat {
    (spec_table_off(s) + 12 * spec_part_count(s)) as nat
}

/// The alignment `derive_align` recovers from `s`.
pub open spec fn spec_image_align(s: Seq<u8>) -> nat {
    spec_derive_align(spec_parts(s), spec_first(s) as int, 0x40)
}

/// An image laid out exactly the way the packer lays one out: at least one
/// partition; a header of at least 0x28 bytes, zero past its fields, whose
/// total size is the image length; an image the bootloader accepts; the
/// partitions in table order, each at the next aligned offset, zero padding
/// between them and nothing after the last; and every partition canonical
/// for the way it is split.
pub open spec fn spec_canonical_image(s: Seq<u8>, raw: bool) -> bool {
    let n = spec_part_count(s);
    let hs = spec_table_off(s);
    let first = spec_first(s);
    let blobs = spec_blobs(s);
    let align = spec_image_align(s);
    &&& spec_header_ok(s)
    &&& n > 0
    &&& hs >= 0x28
    &&& spec_le32(s, 0x1C) == s.len()
    &&& s[0x26] == 0
    &&& s[0x27] == 0
    &&& forall|j: int| 0x28 <= j < hs ==> #[trigger] s[j] == 0
    &&& spec_is_valid(s)
    &&& forall|i: int|
        0 <= i < n ==> (#[trigger] spec_entry(s, i)).offset == spec_start(first, align, blobs, i)
    &&& spec_body(first, align, blobs).len() == s.len()
    &&& forall|j: int| first <= j < s.len() ==> #[trigger] s[j] == spec_body(first, align, blobs)[j]
    &&& forall|i: int| 0 <= i < n ==> spec_canonical_blob(#[trigger] blobs[i], raw)
}

/// Splitting a canonical partition succeeds, and wrapping its payload again
/// gives back the partition.
pub proof fn lemma_part_identity(
    s: Seq<u8>,
    p: PartitionEntry,
    raw: bool,
    r: Result<UnpackedPart, UnpackError>,
)
    requires
        p.offset + p.size <= s.len(),
        p.size <= u32::MAX,
        spec_unpacked(s, p, raw, r),
        spec_canonical_blob(spec_blob(s, p), raw),
    ensures
        r is Ok,
        spec_partition_complete(r->Ok_0.entry),
        r->Ok_0.entry.container == Container::Cksm ==> r->Ok_0.entry.cksm->0.data_offset
            + (r->Ok_0.end - r->Ok_0.start) >= 0x20,
        spec_pack_blob(r->Ok_0.entry, s.subrange(r->Ok_0.start as int, r->Ok_0.end as int))
            == Ok::<Seq<u8>, PackError>(spec_blob(s, p)),
{
    let b = spec_blob(s, p);
    let (ps, pe) = spec_payload_range(b, raw);
    let c = spec_container(b, raw);
    if !raw && spec_is_cksm(b) {
        let ch = spec_cksm_of(b);
        assert(pe == b.len());
        let u = r->Ok_0;
        assert(s.subrange(u.start as int, u.end as int) =~= b.subrange(
            ch.data_offset as int,
            ch.data_offset + ch.data_length,
        ));
        lemma_cksm_blob_identity(b);
    } else if !raw && spec_is_uimage(b) {
        assert(pe == b.len());
        let u = r->Ok_0;
        assert(s.subrange(u.start as int, u.end as int) =~= b.subrange(0x40, b.len() as int));
        lemma_uimage_blob_identity(b, u.entry.uimage->0);
    } else {
        assert(pe == b.len());
        let u = r->Ok_0;
        assert(s.subrange(u.start as int, u.end as int) =~= b);
        lemma_raw_blob_identity(u.entry, b);
    }
}

/// The alignment `derive_align` recovers is a power of two.
pub proof fn lemma_derive_align_pow2(parts: Seq<PartitionEntry>, first: int, a: nat)
    requires
        spec_is_pow2(a),
    ensures
        spec_is_pow2(spec_derive_align(parts, first, a)),
        spec_derive_align(parts, first, a) > 0,
    decreases a,
{
    if a > 0 && crate::unpack::spec_all_aligned(parts, first, a as int) {
    } else if a / 2 < 2 {
        assert(spec_is_pow2(1));
    } else {
        lemma_derive_align_pow2(parts, first, a / 2);
    }
}

/// Bytes of the image before the checksum is solved, when packing what a
/// canonical image was split into.
#[verifier::spinoff_prover]
#[verifier::rlimit(60)]
proof fn lemma_table_bytes_of_image(s: Seq<u8>, rows: Seq<PartitionEntry>, hs: int)
    requires
        0 <= hs,
        hs + 12 * rows.len() <= s.len(),
        forall|i: int| 0 <= i < rows.len() ==> #[trigger] rows[i] == spec_entry(s, i),
        spec_table_off(s) == hs,
    ensures
        spec_table_bytes(rows) == s.subrange(hs, hs + 12 * rows.len()),
    decreases rows.len(),
{
    if rows.len() > 0 {
        let n = rows.len() - 1;
        let prefix = rows.drop_last();
        assert forall|i: int| 0 <= i < prefix.len() implies #[trigger] prefix[i] == spec_entry(s, i) by {
            assert(prefix[i] == rows[i]);
        }
        lemma_table_bytes_of_image(s, prefix, hs);
        let e = hs + 12 * n;
        lemma_le32_bytes_of(s, e);
        lemma_le32_bytes_of(s, e + 4);
        lemma_le32_bytes_of(s, e + 8);
        assert(rows[n] == spec_entry(s, n));
        assert(spec_table_bytes(rows) =~= s.subrange(hs, hs + 12 * rows.len())) by {
            assert(s.subrange(hs, e + 12) =~= s.subrange(hs, e) + s.subrange(e, e + 4) + s.subrange(
                e + 4,
                e + 8,
            ) + s.subrange(e + 8, e + 12));
        }
    }
}

/// The fixed header the packer writes for what a canonical image was split
/// into is the image's own.
proof fn lemma_fw_hdr_of_image(s: Seq<u8>)
    requires
        spec_header_ok(s),
        spec_le32(s, 0x1C) == s.len(),
    ensures
        spec_fw_hdr(
            spec_le32(s, 0x10) as u32,
            spec_table_off(s) as u32,
            spec_part_count(s) as nat,
            s.len(),
            spec_le32(s, 0x20) as u32,
        ) == s.subrange(0, 0x24),
{
    lemma_le32_bytes_of(s, 0x10);
    lemma_le32_bytes_of(s, 0x14);
    lemma_le32_bytes_of(s, 0x18);
    lemma_le32_bytes_of(s, 0x1C);
    lemma_le32_bytes_of(s, 0x20);
    assert(s.subrange(0, 0x24) =~= s.subrange(0, 16) + s.subrange(0x10, 0x14) + s.subrange(0x14, 0x18)
        + s.subrange(0x18, 0x1C) + s.subrange(0x1C, 0x20) + s.subrange(0x20, 0x24));
}

/// Splitting a canonical image (as `unpack_partition` does, row by row) and
/// packing the pieces again (as `pack_partition` and `ImageBuilder` do, with
/// the image's own version, header size, checksum method and recovered
/// alignment) gives back the image byte for byte: every split succeeds, every
/// partition is re-wrapped to the bytes it had, the alignment is a power of
/// two, every append succeeds, and the finished image is the one that was split.
#[verifier::spinoff_prover]
#[verifier::rlimit(60)]
pub proof fn lemma_unpack_pack_roundtrip(
    s: Seq<u8>,
    raw: bool,
    results: Seq<Result<UnpackedPart, UnpackError>>,
)
    requires
        spec_canonical_image(s, raw),
        results.len() == spec_part_count(s),
        forall|i: int|
            0 <= i < results.len() ==> spec_unpacked(s, spec_entry(s, i), raw, #[trigger] results[i]),
    ensures
        forall|i: int| 0 <= i < results.len() ==> (#[trigger] results[i]) is Ok,
        forall|i: int|
            0 <= i < results.len() ==> spec_pack_blob(
                (#[trigger] results[i])->Ok_0.entry,
                s.subrange(results[i]->Ok_0.start as int, results[i]->Ok_0.end as int),
            ) == Ok::<Seq<u8>, PackError>(spec_blobs(s)[i]),
        spec_is_pow2(spec_image_align(s)),
        ({
            let v = BuilderView {
                header_size: spec_table_off(s) as u32,
                count: spec_part_count(s) as nat,
                first: spec_first(s),
                align: spec_image_align(s),
                ids: Seq::new(results.len(), |i: int| results[i]->Ok_0.entry.id),
                blobs: spec_blobs(s),
            };
            &&& spec_complete_builder(v)
            &&& spec_finish(v, spec_le32(s, 0x10) as u32, spec_le32(s, 0x20) as u32) == s
        }),
{
    let n = spec_part_count(s);
    let hs = spec_table_off(s);
    let first = spec_first(s);
    let blobs = spec_blobs(s);
    let align = spec_image_align(s);
    assert forall|i: int| 0 <= i < results.len() implies (#[trigger] results[i]) is Ok
        && spec_pack_blob(
        results[i]->Ok_0.entry,
        s.subrange(results[i]->Ok_0.start as int, results[i]->Ok_0.end as int),
    ) == Ok::<Seq<u8>, PackError>(blobs[i]) by {
        assert(crate::format::spec_entry_fits(s, i));
        assert(blobs[i] == spec_blob(s, spec_entry(s, i)));
        lemma_part_identity(s, spec_entry(s, i), raw, results[i]);
    }
    assert(spec_is_pow2(0x40)) by {
        reveal_with_fuel(spec_is_pow2, 8);
    }
    lemma_derive_align_pow2(spec_parts(s), first as int, 0x40);
    let ids = Seq::new(results.len(), |i: int| results[i]->Ok_0.entry.id);
    let v = BuilderView {
        header_size: hs as u32,
        count: n as nat,
        first,
        align,
        ids,
        blobs,
    };
    assert(spec_complete_builder(v)) by {
        assert forall|i: int| 0 <= i < blobs.len() implies spec_start(first, align, blobs, i)
            + (#[trigger] blobs[i]).len() <= u32::MAX by {
            assert(crate::format::spec_entry_fits(s, i));
            assert(spec_entry(s, i).offset == spec_start(first, align, blobs, i));
        }
    }
    let rows = spec_rows(first, align, ids, blobs);
    assert forall|i: int| 0 <= i < rows.len() implies #[trigger] rows[i] == spec_entry(s, i) by {
        assert(crate::format::spec_entry_fits(s, i));
        assert(spec_entry(s, i).offset == spec_start(first, align, blobs, i));
        assert(crate::format::spec_entry_fits(s, i));
    }
    lemma_table_bytes_of_image(s, rows, hs);
    lemma_fw_hdr_of_image(s);
    let body = spec_body(first, align, blobs);
    let version = spec_le32(s, 0x10) as u32;
    let method = spec_le32(s, 0x20) as u32;
    let hdr = spec_fw_hdr(version, hs as u32, n as nat, body.len(), method);
    let tb = spec_table_bytes(rows);
    let x = splice(splice(body, 0, hdr), hs, tb);
    crate::pack::lemma_body_len_ge_pub(first, align, blobs);
    assert(x =~= put_le16(s, 0x24, 0)) by {
        assert forall|j: int| 0 <= j < s.len() implies #[trigger] x[j] == put_le16(s, 0x24, 0)[j] by {
            if j < 0x24 {
                assert(hdr[j] == s.subrange(0, 0x24)[j]);
            } else if j < hs {
                assert(body[j] == 0);
            } else if j < first {
                assert(tb[j - hs] == s.subrange(hs, hs + 12 * n)[j - hs]);
            } else {
            }
        }
    }
    assert(spec_finish(v, version, method) == spec_solved(x, FW_CHKSUM_OFF as int)) by {
        reveal(spec_finish);
    }
    assert(put_le16(x, 0x24, 0) =~= put_le16(s, 0x24, 0));
    assert(spec_solved(x, 0x24) =~= spec_solved(s, 0x24));
    lemma_solve_valid_is_identity(s, 0x24);
}

} // verus!
