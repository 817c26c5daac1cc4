use viofo_fw::checksum::{is_valid, nvt_chksum};
use viofo_fw::format::{
    fix_nvt_tag, CksmHeader, FirmwareHeader, FormatError, UImageHeader, CKSM_VERSION, FW_GUID,
    NVT_TAG_MAGIC,
};
use viofo_fw::inspect::{classify, describe, payload_ext, verify_image, PartitionKind};
use viofo_fw::manifest::{Cksm, Container, Firmware, Manifest, ManifestError, Partition, UImage};
use viofo_fw::pack::{pack_partition, ImageBuilder, PackError};
use viofo_fw::unpack::{derive_align, payload_file_name, unpack_partition, UnpackError};

fn raw_partition(id: u32, name: &str, tag: Option<u32>) -> Partition {
    Partition {
        id,
        name: name.to_string(),
        file: format!("{id:02}-{name}.bin"),
        container: Container::Raw,
        nvt_tag_offset: tag,
        cksm: None,
        uimage: None,
    }
}

fn uboot_blob() -> Vec<u8> {
    let mut part: Vec<u8> = (0u32..0x800).map(|i| (i * 13 % 251) as u8).collect();
    let off = 0x350;
    part[off..off + 8].copy_from_slice(b"ub51102 ");
    part[off + 8..off + 16].copy_from_slice(b"FFFFFFFF");
    part[off + 16..off + 24].copy_from_slice(b"20260815");
    part
}

fn sample_manifest() -> (Manifest, Vec<Vec<u8>>) {
    let fdt: Vec<u8> = {
        let mut v = vec![0xD0, 0x0D, 0xFE, 0xED, 0, 0, 0x01, 0x23];
        v.extend((0u32..0x123 - 8).map(|i| (i % 7) as u8));
        v
    };
    let rootfs: Vec<u8> = (0u32..3000).map(|i| (i * 5 % 253) as u8).collect();
    let kernel: Vec<u8> = (0u32..777).map(|i| (i * 31 % 251) as u8).collect();
    let partitions = vec![
        raw_partition(1, "fdt", None),
        raw_partition(4, "uboot", Some(0x350)),
        Partition {
            id: 6,
            name: "kernel".into(),
            file: "06-kernel.lzma".into(),
            container: Container::Uimage,
            nvt_tag_offset: None,
            cksm: None,
            uimage: Some(UImage {
                name: "Linux-5.10.168".into(),
                time: 0x1234_5678,
                load: 0,
                entry: 0,
                os: 5,
                arch: 22,
                img_type: 2,
                comp: 0,
            }),
        },
        Partition {
            id: 7,
            name: "rootfs".into(),
            file: "07-rootfs.ubi".into(),
            container: Container::Cksm,
            nvt_tag_offset: None,
            cksm: Some(Cksm {
                version: CKSM_VERSION,
                field_08: 0,
                data_offset: 0x40,
                field_18: 0,
                field_1c: 9,
            }),
            uimage: None,
        },
    ];
    let m = Manifest {
        firmware: Firmware {
            source: "FWA329S.bin".into(),
            version: 0x1607_1515,
            header_size: 0x80,
            chksum_method: 0,
            align: 0x40,
        },
        partitions,
    };
    (m, vec![fdt, uboot_blob(), kernel, rootfs])
}

fn pack(m: &Manifest, payloads: &[Vec<u8>]) -> Vec<u8> {
    m.validate().unwrap();
    let mut b = ImageBuilder::new(m.firmware.header_size, m.partitions.len(), m.firmware.align);
    for (p, payload) in m.partitions.iter().zip(payloads) {
        let blob = pack_partition(p, payload.clone()).unwrap();
        b.append(p.id, &blob).unwrap();
    }
    b.finish(m.firmware.version, m.firmware.chksum_method).0
}

#[test]
fn packed_image_parses_back() {
    let (m, payloads) = sample_manifest();
    let image = pack(&m, &payloads);
    assert!(is_valid(&image));
    let fw = FirmwareHeader::parse(&image).unwrap();
    assert_eq!(fw.version, 0x1607_1515);
    assert_eq!(fw.header_size, 0x80);
    assert_eq!(fw.total_size as usize, image.len());
    assert_eq!(fw.parts.len(), 4);
    let ids: Vec<u32> = fw.parts.iter().map(|p| p.id).collect();
    assert_eq!(ids, vec![1, 4, 6, 7]);
    // First partition right after the table, the rest on 0x40 boundaries.
    assert_eq!(fw.parts[0].offset, 0x80 + 4 * 12);
    for p in &fw.parts {
        assert_eq!((p.offset - fw.first_partition_offset()) % 0x40, 0);
    }
    assert_eq!(fw.parts[2].size, 0x40 + 777);
    assert_eq!(fw.parts[3].size, 0x40 + 3000);
    assert_eq!(derive_align(&fw), Some(0x40));
}

#[test]
fn unpack_then_pack_is_byte_exact() {
    let (m, payloads) = sample_manifest();
    let image = pack(&m, &payloads);
    for raw in [false, true] {
        let fw = FirmwareHeader::parse(&image).unwrap();
        let align = derive_align(&fw).unwrap();
        let mut parts = Vec::new();
        let mut files = Vec::new();
        for p in &fw.parts {
            let u = unpack_partition(&image, *p, raw).unwrap();
            files.push(image[u.start..u.end].to_vec());
            parts.push(u.entry);
        }
        let m2 = Manifest {
            firmware: Firmware {
                source: String::new(),
                version: fw.version,
                header_size: fw.header_size,
                chksum_method: fw.chksum_method,
                align,
            },
            partitions: parts,
        };
        if !raw {
            assert_eq!(files[2], payloads[2]);
            assert_eq!(files[3], payloads[3]);
            assert_eq!(m2.partitions[2].container, Container::Uimage);
            assert_eq!(m2.partitions[2].uimage.as_ref().unwrap().name, "Linux-5.10.168");
            assert_eq!(m2.partitions[3].container, Container::Cksm);
            assert_eq!(m2.partitions[3].cksm.unwrap().field_1c, 9);
        }
        assert_eq!(m2.partitions[1].nvt_tag_offset, Some(0x350));
        assert_eq!(pack(&m2, &files), image);
    }
}

#[test]
fn unpacked_file_names() {
    let (m, payloads) = sample_manifest();
    let image = pack(&m, &payloads);
    let fw = FirmwareHeader::parse(&image).unwrap();
    let names: Vec<String> =
        fw.parts.iter().map(|p| unpack_partition(&image, *p, false).unwrap().entry.file).collect();
    assert_eq!(names, vec!["01-fdt.dtb", "04-uboot.bin", "06-kernel.lzma", "07-rootfs.ubi"]);
    let raw: Vec<String> =
        fw.parts.iter().map(|p| unpack_partition(&image, *p, true).unwrap().entry.file).collect();
    assert_eq!(raw, vec!["01-fdt.bin", "04-uboot.bin", "06-kernel.bin", "07-rootfs.bin"]);
    assert_eq!(payload_file_name(10, "par", "bin"), "10-par.bin");
    assert_eq!(payload_file_name(123, "id123", "bin"), "123-id123.bin");
}

#[test]
fn verify_report_counts_failures() {
    let (m, payloads) = sample_manifest();
    let mut image = pack(&m, &payloads);
    let fw = FirmwareHeader::parse(&image).unwrap();
    let r = verify_image(&image, &fw);
    assert_eq!(r.failure_count(), 0);
    assert_eq!(r.residue, 0);
    assert!(!r.parts[0].has_slot);
    assert!(r.parts[1].has_slot && r.parts[1].residue == 0);
    let crcs = r.parts[2].crcs.unwrap();
    assert_eq!(crcs.data_stored, crcs.data_want);
    assert_eq!(crcs.header_stored, crcs.header_want);
    // Flip a payload byte of the kernel: its data CRC, its checksum (no slot,
    // so not a failure) and the whole-image checksum change.
    let k = fw.parts[2];
    image[(k.offset + 0x50) as usize] ^= 0xFF;
    let r = verify_image(&image, &fw);
    assert_eq!(r.failure_count(), 2);
    let crcs = r.parts[2].crcs.unwrap();
    assert_ne!(crcs.data_stored, crcs.data_want);
    assert_eq!(crcs.data_want, crc32fast::hash(&image[(k.offset + 0x40) as usize..(k.offset + k.size) as usize]));
    // Flip a rootfs byte: its CKSM checksum fails too.
    let r7 = fw.parts[3];
    image[(r7.offset + 0x100) as usize] ^= 0x01;
    let r = verify_image(&image, &fw);
    assert_eq!(r.failure_count(), 3);
    assert_ne!(r.parts[3].residue, 0);
}

#[test]
fn classify_partitions() {
    let (m, payloads) = sample_manifest();
    let image = pack(&m, &payloads);
    let fw = FirmwareHeader::parse(&image).unwrap();
    let blob = |i: usize| {
        let p = fw.parts[i];
        &image[p.offset as usize..(p.offset + p.size) as usize]
    };
    assert!(matches!(classify(blob(0)), PartitionKind::DeviceTree { total_size: 0x123 }));
    match classify(blob(1)) {
        PartitionKind::Tagged(t) => {
            assert_eq!(t.offset, 0x350);
            assert_eq!(t.tag, "ub51102");
            assert_eq!(t.version, "FFFFFFFF");
            assert_eq!(t.date, "20260815");
        }
        other => panic!("expected a build tag, got {other:?}"),
    }
    match classify(blob(2)) {
        PartitionKind::UImage(u) => assert_eq!(u.name, "Linux-5.10.168"),
        other => panic!("expected a uImage, got {other:?}"),
    }
    match classify(blob(3)) {
        PartitionKind::Cksm(c) => assert_eq!(c.data_length, 3000),
        other => panic!("expected CKSM, got {other:?}"),
    }
    assert!(matches!(classify(&[1, 2, 3]), PartitionKind::Raw));
    assert_eq!(payload_ext(7, blob(3), false), "ubi");
    assert_eq!(payload_ext(7, blob(3), true), "bin");
    assert_eq!(payload_ext(6, blob(2), false), "lzma");
    assert_eq!(payload_ext(1, blob(0), false), "dtb");
    assert_eq!(payload_ext(4, blob(1), false), "bin");
}

#[test]
fn parse_errors() {
    assert!(matches!(FirmwareHeader::parse(&[0u8; 0x7F]), Err(FormatError::TooSmall { len: 0x7F })));
    match FirmwareHeader::parse(&[0u8; 0x80]) {
        Err(FormatError::BadGuid { found }) => assert_eq!(found, vec![0u8; 16]),
        other => panic!("expected a GUID error, got {other:?}"),
    }
    let mut h = vec![0u8; 0x80];
    h[..16].copy_from_slice(&FW_GUID);
    h[0x14] = 0x80;
    h[0x18] = 1;
    assert!(matches!(
        FirmwareHeader::parse(&h),
        Err(FormatError::TableTruncated { need: 0x8C, have: 0x80 })
    ));
    h.extend_from_slice(&[0x8C, 0, 0, 0, 0x10, 0, 0, 0, 3, 0, 0, 0]);
    match FirmwareHeader::parse(&h) {
        Err(FormatError::PartitionPastEnd { index: 0, id: 3, offset: 0x8C, size: 0x10, len: 0x8C }) => {}
        other => panic!("expected a partition past the end, got {other:?}"),
    }
    h.extend_from_slice(&[0u8; 0x10]);
    let fw = FirmwareHeader::parse(&h).unwrap();
    assert_eq!(fw.parts.len(), 1);
    assert_eq!(fw.first_partition_offset(), 0x8C);
}

#[test]
fn tag_and_payload_errors() {
    let mut part = vec![0u8; 0x40];
    assert!(matches!(fix_nvt_tag(&mut part, 0x21), Err(FormatError::TagOutside { offset: 0x21 })));
    assert_eq!(part, vec![0u8; 0x40]);
    let p = raw_partition(4, "uboot", Some(0x30));
    assert!(matches!(pack_partition(&p, vec![0u8; 0x40]), Err(PackError::BuildTag { id: 4, offset: 0x30 })));

    // A CKSM header whose payload runs past the partition.
    let h = CksmHeader { version: CKSM_VERSION, field_08: 0, data_offset: 0x40, data_length: 0, field_18: 0, field_1c: 9 };
    let mut blob = h.build(&[1u8; 16]);
    blob[0x14] = 0x20;
    let mut image = vec![0u8; 0x10];
    image.extend_from_slice(&blob);
    let e = viofo_fw::format::PartitionEntry { id: 7, offset: 0x10, size: blob.len() as u64 };
    match unpack_partition(&image, e, false) {
        Err(UnpackError::PayloadPastEnd { id: 7, name, container: Container::Cksm }) => assert_eq!(name, "rootfs"),
        other => panic!("expected a payload past the end, got {other:?}"),
    }
    // Split raw, the same partition is just bytes.
    let u = unpack_partition(&image, e, true).unwrap();
    assert_eq!((u.start, u.end), (0x10, 0x10 + blob.len()));
}

#[test]
fn manifest_validation() {
    let (mut m, _) = sample_manifest();
    assert!(m.validate().is_ok());
    m.firmware.align = 48;
    assert!(matches!(m.validate(), Err(ManifestError::BadAlign { align: 48 })));
    m.firmware.align = 0;
    assert!(matches!(m.validate(), Err(ManifestError::BadAlign { align: 0 })));
    m.firmware.align = 1;
    assert!(m.validate().is_ok());
    m.partitions[3].cksm = None;
    m.partitions[2].uimage = None;
    match m.validate() {
        Err(ManifestError::MissingUimage { id: 6, name }) => assert_eq!(name, "kernel"),
        other => panic!("expected the kernel to be named, got {other:?}"),
    }
    m.partitions.remove(2);
    match m.validate() {
        Err(ManifestError::MissingCksm { id: 7, name }) => assert_eq!(name, "rootfs"),
        other => panic!("expected the rootfs to be named, got {other:?}"),
    }
    m.partitions.clear();
    assert!(matches!(m.validate(), Err(ManifestError::NoPartitions)));
}

#[test]
fn derive_align_finds_the_largest_fit() {
    let (m, payloads) = sample_manifest();
    let mut m = m;
    m.firmware.align = 0x10;
    let image = pack(&m, &payloads);
    let fw = FirmwareHeader::parse(&image).unwrap();
    // 0x123-byte fdt then a 0x10-aligned uboot: not 0x20-aligned.
    assert_eq!(derive_align(&fw), Some(0x10));
    let mut fw2 = fw.clone();
    fw2.parts[0].offset = 0;
    assert_eq!(derive_align(&fw2), Some(1));
}

#[test]
fn uimage_name_is_decoded_lossily() {
    let h = UImageHeader { time: 0, load: 0, entry: 0, os: 5, arch: 22, img_type: 2, comp: 0, name: String::new() };
    let mut part = h.build(&[1, 2, 3]);
    part[0x20] = b'A';
    part[0x21] = 0xFF;
    part[0x22] = b'B';
    let u = UImageHeader::parse(&part).unwrap();
    assert_eq!(u.name, "A\u{FFFD}B");
    // A name longer than 31 bytes keeps 31 and stays NUL-terminated.
    let long = UImageHeader { name: "x".repeat(40), ..h };
    let part = long.build(&[]);
    assert_eq!(part.len(), 0x40);
    assert_eq!(UImageHeader::parse(&part).unwrap().name, "x".repeat(31));
}

#[test]
fn image_checksum_word_is_what_solves_it() {
    let (m, payloads) = sample_manifest();
    m.validate().unwrap();
    let mut b = ImageBuilder::new(0x80, 4, 0x40);
    for (p, payload) in m.partitions.iter().zip(&payloads) {
        let blob = pack_partition(p, payload.clone()).unwrap();
        b.append(p.id, &blob).unwrap();
    }
    let (image, word) = b.finish(0x1607_1515, 0);
    assert_eq!(u16::from_le_bytes([image[0x24], image[0x25]]), word);
    let mut zeroed = image.clone();
    zeroed[0x24] = 0;
    zeroed[0x25] = 0;
    assert_eq!(nvt_chksum(&zeroed).wrapping_neg(), word);
    let _ = NVT_TAG_MAGIC;
}

#[test]
fn partition_descriptions() {
    let (m, payloads) = sample_manifest();
    let image = pack(&m, &payloads);
    let fw = FirmwareHeader::parse(&image).unwrap();
    let blob = |i: usize| {
        let p = fw.parts[i];
        &image[p.offset as usize..(p.offset + p.size) as usize]
    };
    assert_eq!(describe(blob(0)), "device tree blob, totalsize 0x123");
    assert_eq!(describe(blob(1)), "raw, nvt tag \"ub51102\" ver \"FFFFFFFF\" date \"20260815\" @0x350");
    assert_eq!(describe(blob(2)), "uImage \"Linux-5.10.168\" os=5 arch=22 type=2 comp=0 load=0x0");
    assert_eq!(describe(blob(3)), "CKSM v0x16040719 payload 0xbb8 @0x40");
    let mut odd = blob(3).to_vec();
    odd[4] = 0x20;
    assert_eq!(describe(&odd), "CKSM v0x16040720 (unknown) payload 0xbb8 @0x40");
    assert_eq!(describe(&[9, 9, 9]), "raw");
}
