use viofo_fw::checksum;
use viofo_fw::format::{
    find_nvt_tag, fix_nvt_tag, CksmHeader, UImageHeader, CKSM_HDR_LEN, CKSM_VERSION,
    NVT_TAG_MAGIC, UIMAGE_HDR_LEN,
};

#[test]
fn cksm_roundtrip_and_checksum() {
    let h = CksmHeader {
        version: CKSM_VERSION,
        field_08: 0,
        data_offset: 0x40,
        data_length: 0,
        field_18: 0,
        field_1c: 9,
    };
    let payload: Vec<u8> = (0u32..4096).map(|i| (i % 253) as u8).collect();
    let part = h.build(&payload);
    assert_eq!(part.len(), CKSM_HDR_LEN + payload.len());
    assert!(checksum::is_valid(&part), "U-Boot requires a zero residue");
    let p = CksmHeader::parse(&part).expect("re-parse");
    assert_eq!(p.data_length as usize, payload.len());
    assert_eq!(p.field_1c, 9);
    assert_eq!(&part[CKSM_HDR_LEN..], &payload[..]);
}

#[test]
fn uimage_roundtrip_and_crcs() {
    let h = UImageHeader {
        time: 0x1234_5678,
        load: 0,
        entry: 0,
        os: 5,
        arch: 22,
        img_type: 2,
        comp: 0,
        name: "Linux-5.10.168".into(),
    };
    let payload: Vec<u8> = (0u32..5000).map(|i| (i * 31 % 251) as u8).collect();
    let part = h.build(&payload);
    let p = UImageHeader::parse(&part).expect("re-parse");
    assert_eq!(p.name, "Linux-5.10.168");
    assert_eq!(p.time, 0x1234_5678);
    // data CRC
    assert_eq!(
        u32::from_be_bytes(part[0x18..0x1C].try_into().unwrap()),
        crc32fast::hash(&payload)
    );
    // header CRC, computed over the header with the field zeroed
    let mut hdr = part[..UIMAGE_HDR_LEN].to_vec();
    let stored = u32::from_be_bytes(hdr[4..8].try_into().unwrap());
    hdr[4..8].fill(0);
    assert_eq!(stored, crc32fast::hash(&hdr));
}

#[test]
fn nvt_tag_is_found_and_fixed() {
    let mut part = vec![0u8; 0x800];
    let off = 0x350;
    part[off..off + 8].copy_from_slice(b"ub51102 ");
    let len = part.len() as u32;
    part[off + 0x18..off + 0x1C].copy_from_slice(&len.to_le_bytes());
    part[off + 0x1C..off + 0x1E].copy_from_slice(&NVT_TAG_MAGIC.to_le_bytes());
    let t = find_nvt_tag(&part).expect("tag located by size + magic");
    assert_eq!(t.offset, off);
    assert_eq!(t.tag, "ub51102");
    fix_nvt_tag(&mut part, off).unwrap();
    assert!(checksum::is_valid(&part));
    // Idempotent: solving again must not drift.
    let before = part.clone();
    fix_nvt_tag(&mut part, off).unwrap();
    assert_eq!(before, part);
}
