//! Rebuilding an image: wrapping each partition's payload again, laying the
//! partitions out on their alignment, then writing the header, the partition
//! table and the whole-image checksum.

use vstd::prelude::*;
use crate::bytes::{
    append_bytes, append_zeros, le32_bytes, lemma_le32_roundtrip, push_le32, spec_le32, splice,
    write_bytes, zero_vec, zeros,
};
use crate::checksum::{lemma_solved_is_valid, solve, spec_is_valid, spec_solved};
use crate::format::{
    fix_nvt_tag, spec_cksm_build, spec_entry, spec_fix_tag, spec_fw_guid, spec_header_ok,
    spec_part_count, spec_table_off, spec_uimage_build, CksmHeader, PartitionEntry, UImageHeader,
    FW_CHKSUM_OFF, FW_GUID,
};
use crate::manifest::{spec_partition_complete, Container, Partition};

verus! {

/// Why an image cannot be packed.
#[derive(Debug, Clone)]
pub enum PackError {
    /// A raw partition's build tag offset leaves no room for the tag.
    BuildTag { id: u32, offset: u32 },
    /// The partition would end past 4 GiB.
    TooLarge { id: u32 },
}

/// The uImage header a manifest entry describes.
pub open spec fn spec_uimage_header(u: crate::manifest::UImage) -> UImageHeader {
    UImageHeader {
        time: u.time,
        load: u.load,
        entry: u.entry,
        os: u.os,
        arch: u.arch,
        img_type: u.img_type,
        comp: u.comp,
        name: u.name,
    }
}

/// The CKSM header a manifest entry describes, for a payload of `plen` bytes.
pub open spec fn spec_cksm_header(c: crate::manifest::Cksm, plen: nat) -> CksmHeader {
    CksmHeader {
        version: c.version,
        field_08: c.field_08,
        data_offset: c.data_offset,
        data_length: plen as u32,
        field_18: c.field_18,
        field_1c: c.field_1c,
    }
}

/// What `pack_partition` makes of the partition `p` with payload `payload`.
pub open spec fn spec_pack_blob(p: Partition, payload: Seq<u8>) -> Result<Seq<u8>, PackError> {
    match p.container {
        Container::Raw => match p.nvt_tag_offset {
            None => Ok(payload),
            Some(t) => if t + 0x20 > payload.len() {
                Err(PackError::BuildTag { id: p.id, offset: t })
            } else {
                Ok(spec_fix_tag(payload, t as int))
            },
        },
        Container::Cksm => Ok(
            spec_cksm_build(spec_cksm_header(p.cksm->0, payload.len()), payload),
        ),
        Container::Uimage => Ok(spec_uimage_build(spec_uimage_header(p.uimage->0), payload)),
    }
}

/// Wrap one partition's payload as its container says: raw as is (re-solving
/// its build tag if one is recorded), or behind a rebuilt CKSM or uImage
/// header.
pub fn pack_partition(p: &Partition, payload: Vec<u8>) -> (r: Result<Vec<u8>, PackError>)
    requires
        spec_partition_complete(*p),
        p.container == Container::Cksm ==> p.cksm->0.data_offset + payload@.len() >= 0x20
            && p.cksm->0.data_offset + payload@.len() <= usize::MAX,
    ensures
        match r {
            Ok(b) => spec_pack_blob(*p, payload@) == Ok::<Seq<u8>, PackError>(b@),
            Err(e) => spec_pack_blob(*p, payload@) == Err::<Seq<u8>, PackError>(e),
        },
{
    match p.container {
        Container::Raw => {
            let mut blob = payload;
            if let Some(t) = p.nvt_tag_offset {
                match fix_nvt_tag(&mut blob, t as usize) {
                    Ok(_) => {},
                    Err(_) => {
                        return Err(PackError::BuildTag { id: p.id, offset: t });
                    },
                }
            }
            Ok(blob)
        },
        Container::Cksm => {
            let c = p.cksm.unwrap();
            let h = CksmHeader {
                version: c.version,
                field_08: c.field_08,
                data_offset: c.data_offset,
                data_length: payload.len() as u32,
                field_18: c.field_18,
                field_1c: c.field_1c,
            };
            Ok(h.build(payload.as_slice()))
        },
        Container::Uimage => {
            let u = p.uimage.as_ref().unwrap();
            let h = UImageHeader {
                time: u.time,
                load: u.load,
                entry: u.entry,
                os: u.os,
                arch: u.arch,
                img_type: u.img_type,
                comp: u.comp,
                name: u.name.clone(),
            };
            Ok(h.build(payload.as_slice()))
        },
    }
}


/// Packing a uImage partition always succeeds, and the header in front of
/// the payload carries the manifest's load address at 0x10 and entry point
/// at 0x14 (big-endian), its creation time at 0x08, and its OS,
/// architecture, image type and compression bytes at 0x1C..0x20; the
/// payload follows unchanged from 0x40 on.
pub proof fn lemma_pack_uimage_fields(p: Partition, payload: Seq<u8>)
    requires
        p.container == Container::Uimage,
        p.uimage is Some,
    ensures
        spec_pack_blob(p, payload) is Ok,
        ({
            let b = spec_pack_blob(p, payload)->Ok_0;
            let u = p.uimage->0;
            &&& b.len() == 0x40 + payload.len()
            &&& crate::bytes::spec_be32(b, 0x10) == u.load
            &&& crate::bytes::spec_be32(b, 0x14) == u.entry
            &&& crate::bytes::spec_be32(b, 0x08) == u.time
            &&& b[0x1C] == u.os
            &&& b[0x1D] == u.arch
            &&& b[0x1E] == u.img_type
            &&& b[0x1F] == u.comp
            &&& b.subrange(0x40, b.len() as int) == payload
        }),
{
    let h = spec_uimage_header(p.uimage->0);
    crate::format::lemma_uimage_build_fields(h, payload);
    let b = spec_uimage_build(h, payload);
    assert(b.subrange(0x40, b.len() as int) =~= payload);
}

/// `cur` rounded up to the next multiple of `align` past `first`.
pub open spec fn spec_pad(first: int, cur: int, align: int) -> int {
    first + ((cur - first + align - 1) / align) * align
}

/// The image body after laying out `blobs` in order: `first` zero bytes (the
/// room for header and table), then each blob, each preceded by the zeros
/// that bring it to the next aligned offset.
pub open spec fn spec_body(first: nat, align: nat, blobs: Seq<Seq<u8>>) -> Seq<u8>
    decreases blobs.len(),
{
    if blobs.len() == 0 {
        zeros(first)
    } else {
        let prev = spec_body(first, align, blobs.drop_last());
        let p = spec_pad(first as int, prev.len() as int, align as int);
        prev + zeros((p - prev.len()) as nat) + blobs.last()
    }
}

/// Offset at which blob `i` is laid out.
pub open spec fn spec_start(first: nat, align: nat, blobs: Seq<Seq<u8>>, i: int) -> int {
    spec_pad(first as int, spec_body(first, align, blobs.take(i)).len() as int, align as int)
}

/// The partition table rows for the blobs laid out so far.
pub open spec fn spec_rows(first: nat, align: nat, ids: Seq<u32>, blobs: Seq<Seq<u8>>) -> Seq<
    PartitionEntry,
> {
    Seq::new(
        blobs.len(),
        |i: int|
            PartitionEntry {
                id: ids[i],
                offset: spec_start(first, align, blobs, i) as u64,
                size: blobs[i].len() as u64,
            },
    )
}

/// The bytes of a partition table.
pub open spec fn spec_table_bytes(rows: Seq<PartitionEntry>) -> Seq<u8>
    decreases rows.len(),
{
    if rows.len() == 0 {
        Seq::empty()
    } else {
        spec_table_bytes(rows.drop_last()) + le32_bytes(rows.last().offset as u32) + le32_bytes(
            rows.last().size as u32,
        ) + le32_bytes(rows.last().id)
    }
}

/// The first 0x24 bytes of the fixed header.
pub open spec fn spec_fw_hdr(
    version: u32,
    header_size: u32,
    count: nat,
    total: nat,
    method: u32,
) -> Seq<u8> {
    spec_fw_guid() + le32_bytes(version) + le32_bytes(header_size) + le32_bytes(count as u32)
        + le32_bytes(total as u32) + le32_bytes(method)
}

/// An image being laid out, partition by partition.
pub struct ImageBuilder {
    image: Vec<u8>,
    table: Vec<PartitionEntry>,
    header_size: u32,
    count: usize,
    first_off: u64,
    align: u64,
    ids: Ghost<Seq<u32>>,
    blobs: Ghost<Seq<Seq<u8>>>,
}

/// What an `ImageBuilder` holds: the header size and partition count it was
/// made for, the offset of the first partition, the alignment, and the ids
/// and bytes of the partitions appended so far.
pub struct BuilderView {
    pub header_size: u32,
    pub count: nat,
    pub first: nat,
    pub align: nat,
    pub ids: Seq<u32>,
    pub blobs: Seq<Seq<u8>>,
}

impl View for ImageBuilder {
    type V = BuilderView;

    closed spec fn view(&self) -> BuilderView {
        BuilderView {
            header_size: self.header_size,
            count: self.count as nat,
            first: self.first_off as nat,
            align: self.align as nat,
            ids: self.ids@,
            blobs: self.blobs@,
        }
    }
}

/// The image a builder in state `v` finishes as.
#[verifier::opaque]
pub open spec fn spec_finish(v: BuilderView, version: u32, method: u32) -> Seq<u8> {
    let body = spec_body(v.first, v.align, v.blobs);
    let rows = spec_rows(v.first, v.align, v.ids, v.blobs);
    spec_solved(
        splice(
            splice(body, 0, spec_fw_hdr(version, v.header_size, v.count, body.len(), method)),
            v.header_size as int,
            spec_table_bytes(rows),
        ),
        FW_CHKSUM_OFF as int,
    )
}

proof fn lemma_body_len_ge(first: nat, align: nat, blobs: Seq<Seq<u8>>)
    requires
        align > 0,
    ensures
        spec_body(first, align, blobs).len() >= first,
    decreases blobs.len(),
{
    if blobs.len() > 0 {
        lemma_body_len_ge(first, align, blobs.drop_last());
        let prev = spec_body(first, align, blobs.drop_last());
        lemma_pad_ge(first as int, prev.len() as int, align as int);
    }
}

/// The body never ends before the room left for header and table, and is
/// zero there.
pub proof fn lemma_body_len_ge_pub(first: nat, align: nat, blobs: Seq<Seq<u8>>)
    requires
        align > 0,
    ensures
        spec_body(first, align, blobs).len() >= first,
        forall|j: int| 0 <= j < first ==> #[trigger] spec_body(first, align, blobs)[j] == 0,
    decreases blobs.len(),
{
    lemma_body_len_ge(first, align, blobs);
    if blobs.len() > 0 {
        lemma_body_len_ge_pub(first, align, blobs.drop_last());
        let prev = spec_body(first, align, blobs.drop_last());
        assert forall|j: int| 0 <= j < first implies #[trigger] spec_body(first, align, blobs)[j] == 0 by {
            assert(spec_body(first, align, blobs)[j] == prev[j]);
        }
    }
}

proof fn lemma_pad_ge(first: int, cur: int, align: int)
    requires
        align > 0,
        cur >= first,
    ensures
        spec_pad(first, cur, align) >= cur,
        spec_pad(first, cur, align) < cur + align,
{
    let r = cur - first;
    let q = (r + align - 1) / align;
    vstd::arithmetic::div_mod::lemma_fundamental_div_mod(r + align - 1, align);
    assert(q * align == align * q) by (nonlinear_arith);
}

/// Rounding a non-negative `rel` up to a multiple of `a`, as quotient.
proof fn lemma_div_ceil(rel: int, a: int)
    requires
        a > 0,
        rel >= 0,
    ensures
        (rel + a - 1) / a == rel / a + if rel % a == 0 {
            0int
        } else {
            1int
        },
        (rel + a - 1) / a >= 0,
{
    let k = rel / a;
    let r = rel % a;
    vstd::arithmetic::div_mod::lemma_fundamental_div_mod(rel, a);
    assert(k * a == a * k) by (nonlinear_arith);
    if r == 0 {
        vstd::arithmetic::div_mod::lemma_fundamental_div_mod_converse_div(rel + a - 1, a, k, a - 1);
    } else {
        assert(rel + a - 1 == (k + 1) * a + (r - 1)) by (nonlinear_arith)
            requires
                rel == a * k + r,
        ;
        vstd::arithmetic::div_mod::lemma_fundamental_div_mod_converse_div(
            rel + a - 1,
            a,
            k + 1,
            r - 1,
        );
    }
    assert(k >= 0) by {
        vstd::arithmetic::div_mod::lemma_div_pos_is_pos(rel, a);
    }
}

proof fn lemma_mul_le_iff(q: int, a: int, m: int)
    requires
        a > 0,
        q >= 0,
        m >= 0,
    ensures
        q > m / a <==> q * a > m,
{
    vstd::arithmetic::div_mod::lemma_fundamental_div_mod(m, a);
    let f = m / a;
    if q > f {
        assert(q * a >= (f + 1) * a) by (nonlinear_arith)
            requires
                q >= f + 1,
                a > 0,
        ;
        assert((f + 1) * a == a * f + a) by (nonlinear_arith);
    } else {
        assert(q * a <= f * a) by (nonlinear_arith)
            requires
                q <= f,
                a > 0,
        ;
        assert(f * a == a * f) by (nonlinear_arith);
    }
}

impl ImageBuilder {
    /// The builder's fields agree with what it holds.
    pub closed spec fn wf(&self) -> bool {
        &&& self.align > 0
        &&& self.first_off == self.header_size + 12 * self.count
        &&& self.image@ == spec_body(self.first_off as nat, self.align as nat, self.blobs@)
        &&& self.table@ == spec_rows(self.first_off as nat, self.align as nat, self.ids@, self.blobs@)
        &&& self.ids@.len() == self.blobs@.len()
        &&& forall|i: int|
            0 <= i < self.blobs@.len() ==> spec_start(
                self.first_off as nat,
                self.align as nat,
                self.blobs@,
                i,
            ) + (#[trigger] self.blobs@[i]).len() <= u32::MAX
    }

    /// What every well-formed builder holds: a positive alignment, the first
    /// partition offset right after the table, one id per partition, and
    /// every partition ending by 4 GiB.
    pub proof fn lemma_wf_view(&self)
        requires
            self.wf(),
        ensures
            self@.align > 0,
            self@.first == self@.header_size + 12 * self@.count,
            self@.ids.len() == self@.blobs.len(),
            forall|i: int|
                0 <= i < self@.blobs.len() ==> spec_start(self@.first, self@.align, self@.blobs, i)
                    + (#[trigger] self@.blobs[i]).len() <= u32::MAX,
    {
    }

    /// A builder for an image of `count` partitions with a `header_size`-byte
    /// fixed header, partitions aligned to `align` from the first partition
    /// offset `header_size + 12 * count`.
    pub fn new(header_size: u32, count: usize, align: u64) -> (b: ImageBuilder)
        requires
            align > 0,
            header_size + 12 * count <= usize::MAX,
        ensures
            b.wf(),
            b@ == (BuilderView {
                header_size,
                count: count as nat,
                first: (header_size + 12 * count) as nat,
                align: align as nat,
                ids: Seq::empty(),
                blobs: Seq::empty(),
            }),
    {
        let first_off: u64 = header_size as u64 + count as u64 * 12;
        let image = zero_vec(first_off as usize);
        let b = ImageBuilder {
            image,
            table: Vec::new(),
            header_size,
            count,
            first_off,
            align,
            ids: Ghost(Seq::empty()),
            blobs: Ghost(Seq::empty()),
        };
        assert(b.table@ =~= spec_rows(first_off as nat, align as nat, Seq::empty(), Seq::empty()));
        b
    }

    /// The length of the image laid out so far.
    pub fn len(&self) -> (n: usize)
        requires
            self.wf(),
        ensures
            n == spec_body(self@.first, self@.align, self@.blobs).len(),
    {
        self.image.len()
    }

    /// Lay out the next partition at the next aligned offset, unless it would
    /// end past 4 GiB. Returns its offset.
    pub fn append(&mut self, id: u32, blob: &[u8]) -> (r: Result<u64, PackError>)
        requires
            old(self).wf(),
        ensures
            final(self).wf(),
            match r {
                Ok(off) => {
                    &&& off == spec_start(
                        old(self)@.first,
                        old(self)@.align,
                        old(self)@.blobs.push(blob@),
                        old(self)@.blobs.len() as int,
                    )
                    &&& off + blob@.len() <= u32::MAX
                    &&& final(self)@ == (BuilderView {
                        ids: old(self)@.ids.push(id),
                        blobs: old(self)@.blobs.push(blob@),
                        ..old(self)@
                    })
                },
                Err(e) => {
                    &&& e == PackError::TooLarge { id }
                    &&& final(self)@ == old(self)@
                    &&& spec_start(
                        old(self)@.first,
                        old(self)@.align,
                        old(self)@.blobs.push(blob@),
                        old(self)@.blobs.len() as int,
                    ) + blob@.len() > u32::MAX
                },
            },
    {
        let ghost first = self.first_off as nat;
        let ghost align = self.align as nat;
        let ghost blobs = self.blobs@;
        let ghost newb = blobs.push(blob@);
        let ghost n = blobs.len() as int;
        assert(newb.take(n) =~= blobs);
        assert(newb.drop_last() =~= blobs);
        proof {
            lemma_body_len_ge(first, align, blobs);
        }
        let cur = self.image.len() as u64;
        let rel = cur - self.first_off;
        let q0 = rel / self.align;
        let q = if rel % self.align == 0 {
            q0
        } else {
            proof {
                vstd::arithmetic::div_mod::lemma_fundamental_div_mod(rel as int, self.align as int);
                assert(q0 < 0xFFFF_FFFF_FFFF_FFFFu64) by (nonlinear_arith)
                    requires
                        rel == self.align * q0 + rel % self.align,
                        rel % self.align > 0,
                        rel % self.align < self.align,
                        q0 >= 0,
                        rel <= 0xFFFF_FFFF_FFFF_FFFFu64,
                ;
            }
            q0 + 1
        };
        proof {
            lemma_div_ceil(rel as int, self.align as int);
            assert(spec_start(first, align, newb, n) == self.first_off + q * self.align);
        }
        if self.first_off > 0xFFFF_FFFFu64 {
            proof {
                assert(q * self.align >= 0) by (nonlinear_arith)
                    requires
                        q >= 0,
                        self.align > 0,
                ;
            }
            return Err(PackError::TooLarge { id });
        }
        if q > (0xFFFF_FFFFu64 - self.first_off) / self.align {
            proof {
                lemma_mul_le_iff(q as int, self.align as int, 0xFFFF_FFFF - self.first_off);
            }
            return Err(PackError::TooLarge { id });
        }
        proof {
            lemma_mul_le_iff(q as int, self.align as int, 0xFFFF_FFFF - self.first_off);
        }
        let padded = self.first_off + q * self.align;
        if blob.len() as u64 > 0xFFFF_FFFFu64 - padded {
            return Err(PackError::TooLarge { id });
        }
        proof {
            lemma_pad_ge(first as int, cur as int, align as int);
        }
        append_zeros(&mut self.image, (padded - cur) as usize);
        append_bytes(&mut self.image, blob);
        let ghost old_rows = self.table@;
        self.table.push(PartitionEntry { id, offset: padded, size: blob.len() as u64 });
        self.ids = Ghost(self.ids@.push(id));
        self.blobs = Ghost(newb);
        proof {
            assert(self.image@ =~= spec_body(first, align, newb));
            assert forall|i: int| 0 <= i < n implies newb.take(i) =~= blobs.take(i) by {}
            assert forall|i: int| 0 <= i < newb.len() implies spec_start(first, align, newb, i)
                + (#[trigger] newb[i]).len() <= u32::MAX by {
                if i < n {
                    assert(newb.take(i) =~= blobs.take(i));
                    assert(newb[i] == blobs[i]);
                }
            }
            assert(self.table@ =~= spec_rows(first, align, self.ids@, newb));
        }
        Ok(padded)
    }

    /// Write the fixed header (GUID, version, header size, partition count,
    /// total size, checksum method) and the partition table over the laid-out
    /// image, then solve the whole-image checksum word. Returns the image and
    /// that word.
    #[verifier::spinoff_prover]
    #[verifier::rlimit(40)]
    pub fn finish(self, version: u32, chksum_method: u32) -> (r: (Vec<u8>, u16))
        requires
            self.wf(),
            self@.blobs.len() == self@.count,
            spec_body(self@.first, self@.align, self@.blobs).len() >= 0x26,
        ensures
            r.0@ == spec_finish(self@, version, chksum_method),
    {
        let ghost v = self@;
        let ghost body = spec_body(v.first, v.align, v.blobs);
        let ghost rows = spec_rows(v.first, v.align, v.ids, v.blobs);
        proof {
            lemma_body_len_ge(v.first, v.align, v.blobs);
        }
        let mut image = self.image;
        let total = image.len() as u32;
        let mut hdr: Vec<u8> = Vec::new();
        let g = FW_GUID;
        assert(g@ == spec_fw_guid());
        let mut k: usize = 0;
        while k < 16
            invariant
                k <= 16,
                g@ == spec_fw_guid(),
                hdr@ == spec_fw_guid().subrange(0, k as int),
            decreases 16 - k,
        {
            hdr.push(g[k]);
            k = k + 1;
            assert(hdr@ =~= spec_fw_guid().subrange(0, k as int));
        }
        assert(spec_fw_guid().subrange(0, 16) =~= spec_fw_guid());
        push_le32(&mut hdr, version);
        push_le32(&mut hdr, self.header_size);
        push_le32(&mut hdr, self.count as u32);
        push_le32(&mut hdr, total);
        push_le32(&mut hdr, chksum_method);
        assert(hdr@ =~= spec_fw_hdr(version, v.header_size, v.count, body.len(), chksum_method));
        write_bytes(&mut image, 0, hdr.as_slice());
        let mut tb: Vec<u8> = Vec::new();
        let mut i: usize = 0;
        while i < self.table.len()
            invariant
                i <= self.table@.len(),
                self.table@ == rows,
                tb@ == spec_table_bytes(rows.take(i as int)),
                tb@.len() == 12 * i,
            decreases self.table@.len() - i,
        {
            let e = self.table[i];
            push_le32(&mut tb, e.offset as u32);
            push_le32(&mut tb, e.size as u32);
            push_le32(&mut tb, e.id);
            i = i + 1;
            assert(rows.take(i as int).drop_last() =~= rows.take(i - 1));
        }
        assert(rows.take(rows.len() as int) =~= rows);
        write_bytes(&mut image, self.header_size as usize, tb.as_slice());
        let ck = solve(&mut image, FW_CHKSUM_OFF);
        proof {
            reveal(spec_finish);
        }
        (image, ck)
    }
}


/// Blob `i` lies, intact, at its start offset in the laid-out body.
pub proof fn lemma_body_blob(first: nat, align: nat, blobs: Seq<Seq<u8>>, i: int)
    requires
        align > 0,
        0 <= i < blobs.len(),
    ensures
        first <= spec_start(first, align, blobs, i),
        spec_start(first, align, blobs, i) + blobs[i].len() <= spec_body(first, align, blobs).len(),
        spec_body(first, align, blobs).subrange(
            spec_start(first, align, blobs, i),
            spec_start(first, align, blobs, i) + blobs[i].len(),
        ) == blobs[i],
    decreases blobs.len(),
{
    let n = blobs.len() as int;
    let prefix = blobs.drop_last();
    let prev = spec_body(first, align, prefix);
    lemma_body_len_ge(first, align, prefix);
    lemma_pad_ge(first as int, prev.len() as int, align as int);
    let body = spec_body(first, align, blobs);
    if i == n - 1 {
        assert(blobs.take(i) =~= prefix);
        let st = spec_start(first, align, blobs, i);
        assert(body.subrange(st, st + blobs[i].len()) =~= blobs[i]);
    } else {
        lemma_body_blob(first, align, prefix, i);
        assert(prefix.take(i) =~= blobs.take(i));
        let st = spec_start(first, align, blobs, i);
        assert(body.subrange(st, st + blobs[i].len()) =~= prev.subrange(st, st + blobs[i].len()));
    }
}

/// The bytes of a table hold each row's offset, size and id, 12 bytes a row.
pub proof fn lemma_table_bytes(rows: Seq<PartitionEntry>, i: int)
    requires
        0 <= i < rows.len(),
    ensures
        spec_table_bytes(rows).len() == 12 * rows.len(),
        spec_le32(spec_table_bytes(rows), 12 * i) == rows[i].offset as u32,
        spec_le32(spec_table_bytes(rows), 12 * i + 4) == rows[i].size as u32,
        spec_le32(spec_table_bytes(rows), 12 * i + 8) == rows[i].id,
    decreases rows.len(),
{
    lemma_table_bytes_len(rows);
    let n = rows.len() as int;
    let prefix = rows.drop_last();
    let tb = spec_table_bytes(rows);
    lemma_table_bytes_len(prefix);
    if i == n - 1 {
        lemma_le32_roundtrip(rows[i].offset as u32);
        lemma_le32_roundtrip(rows[i].size as u32);
        lemma_le32_roundtrip(rows[i].id);
        let b = 12 * i;
        assert(tb.subrange(b, b + 4) =~= le32_bytes(rows[i].offset as u32));
        assert(tb.subrange(b + 4, b + 8) =~= le32_bytes(rows[i].size as u32));
        assert(tb.subrange(b + 8, b + 12) =~= le32_bytes(rows[i].id));
        assert(spec_le32(tb, b) == spec_le32(tb.subrange(b, b + 4), 0));
        assert(spec_le32(tb, b + 4) == spec_le32(tb.subrange(b + 4, b + 8), 0));
        assert(spec_le32(tb, b + 8) == spec_le32(tb.subrange(b + 8, b + 12), 0));
    } else {
        lemma_table_bytes(prefix, i);
        let pb = spec_table_bytes(prefix);
        assert forall|k: int| 0 <= k < pb.len() implies tb[k] == pb[k] by {}
        assert(prefix[i] == rows[i]);
    }
}

proof fn lemma_table_bytes_len(rows: Seq<PartitionEntry>)
    ensures
        spec_table_bytes(rows).len() == 12 * rows.len(),
    decreases rows.len(),
{
    if rows.len() > 0 {
        lemma_table_bytes_len(rows.drop_last());
    }
}

/// The states an `ImageBuilder` reaches when every partition of the image
/// has been appended.
pub open spec fn spec_complete_builder(v: BuilderView) -> bool {
    &&& v.align > 0
    &&& v.first == v.header_size + 12 * v.count
    &&& v.ids.len() == v.blobs.len()
    &&& v.blobs.len() == v.count
    &&& forall|i: int|
        0 <= i < v.blobs.len() ==> spec_start(v.first, v.align, v.blobs, i) + (#[trigger] v.blobs[i]).len()
            <= u32::MAX
}

/// Where each byte of a finished image comes from: the fixed header below
/// 0x24, the table at `header_size`, the laid-out body past the table.
#[verifier::spinoff_prover]
#[verifier::rlimit(40)]
proof fn lemma_finish_bytes(v: BuilderView, version: u32, method: u32)
    requires
        spec_complete_builder(v),
        v.header_size >= 0x26,
        spec_body(v.first, v.align, v.blobs).len() >= 0x26,
    ensures
        ({
            let body = spec_body(v.first, v.align, v.blobs);
            let hdr = spec_fw_hdr(version, v.header_size, v.count, body.len(), method);
            let tb = spec_table_bytes(spec_rows(v.first, v.align, v.ids, v.blobs));
            let img = spec_finish(v, version, method);
            &&& img.len() == body.len()
            &&& forall|j: int| 0 <= j < 0x24 ==> #[trigger] img[j] == hdr[j]
            &&& forall|j: int|
                v.header_size <= j < v.first ==> #[trigger] img[j] == tb[j - v.header_size]
            &&& forall|j: int| v.first <= j < img.len() ==> #[trigger] img[j] == body[j]
        }),
{
    let body = spec_body(v.first, v.align, v.blobs);
    let rows = spec_rows(v.first, v.align, v.ids, v.blobs);
    let hdr = spec_fw_hdr(version, v.header_size, v.count, body.len(), method);
    let tb = spec_table_bytes(rows);
    lemma_body_len_ge(v.first, v.align, v.blobs);
    lemma_table_bytes_len(rows);
    assert(hdr.len() == 0x24);
    lemma_layout_bytes(body, hdr, tb, v.header_size as int);
    reveal(spec_finish);
}

/// Where each byte of `solved(splice(splice(body, 0, hdr), hs, tb))` comes
/// from.
proof fn lemma_layout_bytes(body: Seq<u8>, hdr: Seq<u8>, tb: Seq<u8>, hs: int)
    requires
        hdr.len() == 0x24,
        hs >= 0x26,
        hs + tb.len() <= body.len(),
    ensures
        ({
            let img = spec_solved(splice(splice(body, 0, hdr), hs, tb), 0x24);
            &&& img.len() == body.len()
            &&& forall|j: int| 0 <= j < 0x24 ==> #[trigger] img[j] == hdr[j]
            &&& forall|j: int| hs <= j < hs + tb.len() ==> #[trigger] img[j] == tb[j - hs]
            &&& forall|j: int| hs + tb.len() <= j < img.len() ==> #[trigger] img[j] == body[j]
        }),
{
}

/// The fixed header `spec_fw_hdr` reads back field by field.
proof fn lemma_fw_hdr_fields(
    img: Seq<u8>,
    version: u32,
    header_size: u32,
    count: nat,
    total: nat,
    method: u32,
)
    requires
        img.len() >= 0x24,
        forall|j: int|
            0 <= j < 0x24 ==> #[trigger] img[j] == spec_fw_hdr(
                version,
                header_size,
                count,
                total,
                method,
            )[j],
    ensures
        img.subrange(0, 16) == spec_fw_guid(),
        spec_le32(img, 0x10) == version,
        spec_le32(img, 0x14) == header_size,
        spec_le32(img, 0x18) == count as u32,
        spec_le32(img, 0x1C) == total as u32,
        spec_le32(img, 0x20) == method,
{
    let hdr = spec_fw_hdr(version, header_size, count, total, method);
    assert(img.subrange(0, 16) =~= spec_fw_guid());
    lemma_le32_roundtrip(version);
    lemma_le32_roundtrip(header_size);
    lemma_le32_roundtrip(count as u32);
    lemma_le32_roundtrip(total as u32);
    lemma_le32_roundtrip(method);
    assert(img[0x10] == hdr[0x10] && img[0x11] == hdr[0x11]
        && img[0x12] == hdr[0x12] && img[0x13] == hdr[0x13]);
    assert(img[0x14] == hdr[0x14] && img[0x15] == hdr[0x15]
        && img[0x16] == hdr[0x16] && img[0x17] == hdr[0x17]);
    assert(img[0x18] == hdr[0x18] && img[0x19] == hdr[0x19]
        && img[0x1A] == hdr[0x1A] && img[0x1B] == hdr[0x1B]);
    assert(img[0x1C] == hdr[0x1C] && img[0x1D] == hdr[0x1D]
        && img[0x1E] == hdr[0x1E] && img[0x1F] == hdr[0x1F]);
    assert(img[0x20] == hdr[0x20] && img[0x21] == hdr[0x21]
        && img[0x22] == hdr[0x22] && img[0x23] == hdr[0x23]);
}

/// The body ends with the last partition laid out.
proof fn lemma_body_end(first: nat, align: nat, blobs: Seq<Seq<u8>>)
    requires
        align > 0,
        blobs.len() > 0,
    ensures
        spec_body(first, align, blobs).len() == spec_start(first, align, blobs, blobs.len() - 1)
            + blobs[blobs.len() - 1].len(),
{
    let n = blobs.len() as int;
    assert(blobs.drop_last() =~= blobs.take(n - 1));
    let prev = spec_body(first, align, blobs.drop_last());
    lemma_body_len_ge(first, align, blobs.drop_last());
    lemma_pad_ge(first as int, prev.len() as int, align as int);
}


/// A table row reads back from the image bytes that hold it.
proof fn lemma_entry_from_bytes(img: Seq<u8>, tb: Seq<u8>, hs: int, i: int, row: PartitionEntry)
    requires
        0 <= i,
        spec_le32(img, 0x14) == hs,
        hs + 12 * i + 12 <= img.len(),
        12 * i + 12 <= tb.len(),
        forall|j: int| hs + 12 * i <= j < hs + 12 * i + 12 ==> #[trigger] img[j] == tb[j - hs],
        spec_le32(tb, 12 * i) == row.offset as u32,
        spec_le32(tb, 12 * i + 4) == row.size as u32,
        spec_le32(tb, 12 * i + 8) == row.id,
        row.offset <= u32::MAX,
        row.size <= u32::MAX,
    ensures
        spec_entry(img, i) == row,
{
    let e = hs + 12 * i;
    assert(img[e] == tb[12 * i] && img[e + 1] == tb[12 * i + 1]
        && img[e + 2] == tb[12 * i + 2] && img[e + 3] == tb[12 * i + 3]);
    assert(img[e + 4] == tb[12 * i + 4] && img[e + 5] == tb[12 * i + 5]
        && img[e + 6] == tb[12 * i + 6] && img[e + 7] == tb[12 * i + 7]);
    assert(img[e + 8] == tb[12 * i + 8] && img[e + 9] == tb[12 * i + 9]
        && img[e + 10] == tb[12 * i + 10] && img[e + 11] == tb[12 * i + 11]);
}

/// Row `i` of a packed image's table reads back as laid out, and lies
/// within the image.
proof fn lemma_pack_entry(v: BuilderView, version: u32, method: u32, i: int)
    requires
        spec_complete_builder(v),
        v.header_size >= 0x26,
        v.count > 0,
        spec_body(v.first, v.align, v.blobs).len() >= 0x80,
        0 <= i < v.count,
    ensures
        spec_entry(spec_finish(v, version, method), i) == spec_rows(v.first, v.align, v.ids, v.blobs)[i],
        crate::format::spec_entry_fits(spec_finish(v, version, method), i),
{
    let body = spec_body(v.first, v.align, v.blobs);
    let rows = spec_rows(v.first, v.align, v.ids, v.blobs);
    let tb = spec_table_bytes(rows);
    let img = spec_finish(v, version, method);
    let hs = v.header_size as int;
    lemma_finish_bytes(v, version, method);
    lemma_fw_hdr_fields(img, version, v.header_size, v.count, body.len(), method);
    lemma_table_bytes(rows, i);
    lemma_body_blob(v.first, v.align, v.blobs, i);
    let row = rows[i];
    assert(row.offset + row.size <= u32::MAX);
    assert(hs + 12 * i + 12 <= v.first);
    lemma_entry_from_bytes(img, tb, hs, i, row);
}

/// Partition `i` of a packed image sits intact at its laid-out offset.
proof fn lemma_pack_blob_intact(v: BuilderView, version: u32, method: u32, i: int)
    requires
        spec_complete_builder(v),
        v.header_size >= 0x26,
        spec_body(v.first, v.align, v.blobs).len() >= 0x80,
        0 <= i < v.count,
    ensures
        spec_finish(v, version, method).subrange(
            spec_start(v.first, v.align, v.blobs, i),
            spec_start(v.first, v.align, v.blobs, i) + v.blobs[i].len(),
        ) == v.blobs[i],
{
    let body = spec_body(v.first, v.align, v.blobs);
    let img = spec_finish(v, version, method);
    lemma_finish_bytes(v, version, method);
    lemma_body_blob(v.first, v.align, v.blobs, i);
    let st = spec_start(v.first, v.align, v.blobs, i);
    assert(img.subrange(st, st + v.blobs[i].len()) =~= body.subrange(st, st + v.blobs[i].len()));
}

/// A packed image is one the parser accepts: its header holds the version,
/// header size, partition count, checksum method and its own length; its
/// table lists every partition at the offset it was laid out at, with its id
/// and size; each partition's bytes are intact there; and the bootloader
/// accepts the whole image. This holds when the fixed header leaves room for
/// the checksum word (`header_size >= 0x26`), there is at least one
/// partition, and the image reaches the 0x80 bytes of a full header.
pub proof fn lemma_pack_parse(v: BuilderView, version: u32, method: u32)
    requires
        spec_complete_builder(v),
        v.header_size >= 0x26,
        v.count > 0,
        spec_body(v.first, v.align, v.blobs).len() >= 0x80,
    ensures
        spec_header_ok(spec_finish(v, version, method)),
        spec_le32(spec_finish(v, version, method), 0x10) == version,
        spec_table_off(spec_finish(v, version, method)) == v.header_size,
        spec_part_count(spec_finish(v, version, method)) == v.count,
        spec_le32(spec_finish(v, version, method), 0x1C) == spec_finish(v, version, method).len(),
        spec_le32(spec_finish(v, version, method), 0x20) == method,
        forall|i: int|
            0 <= i < v.count ==> #[trigger] spec_entry(spec_finish(v, version, method), i)
                == spec_rows(v.first, v.align, v.ids, v.blobs)[i],
        forall|i: int|
            0 <= i < v.count ==> spec_finish(v, version, method).subrange(
                spec_start(v.first, v.align, v.blobs, i),
                spec_start(v.first, v.align, v.blobs, i) + v.blobs[i].len(),
            ) == #[trigger] v.blobs[i],
        spec_is_valid(spec_finish(v, version, method)),
{
    let body = spec_body(v.first, v.align, v.blobs);
    let rows = spec_rows(v.first, v.align, v.ids, v.blobs);
    let tb = spec_table_bytes(rows);
    let img = spec_finish(v, version, method);
    let n = v.count as int;
    let hs = v.header_size as int;
    lemma_body_len_ge(v.first, v.align, v.blobs);
    lemma_table_bytes_len(rows);
    lemma_finish_bytes(v, version, method);
    lemma_body_end(v.first, v.align, v.blobs);
    lemma_fw_hdr_fields(img, version, v.header_size, v.count, body.len(), method);
    assert(img.len() <= u32::MAX);
    lemma_solved_is_valid(
        splice(
            splice(body, 0, spec_fw_hdr(version, v.header_size, v.count, body.len(), method)),
            hs,
            tb,
        ),
        FW_CHKSUM_OFF as int,
    );
    assert(spec_is_valid(img)) by {
        reveal(spec_finish);
    }
    assert forall|i: int| 0 <= i < n implies #[trigger] spec_entry(img, i) == rows[i] by {
        lemma_pack_entry(v, version, method, i);
    }
    assert forall|i: int| 0 <= i < n implies img.subrange(
        spec_start(v.first, v.align, v.blobs, i),
        spec_start(v.first, v.align, v.blobs, i) + v.blobs[i].len(),
    ) == #[trigger] v.blobs[i] by {
        lemma_pack_blob_intact(v, version, method, i);
    }
    assert forall|i: int| 0 <= i < spec_part_count(img) implies crate::format::spec_entry_fits(
        img,
        i,
    ) by {
        lemma_pack_entry(v, version, method, i);
    }
}

} // verus!
