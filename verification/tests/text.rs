use viofo_fw::checksum::{is_valid, nvt_chksum, solve};
use viofo_fw::format::{hex, partition_name, fix_nvt_tag, find_nvt_tag, NVT_TAG_MAGIC};
use viofo_fw::manifest::{hex_text, is_power_of_two, parse_u32_field, IntError};

#[test]
fn partition_names() {
    assert_eq!(partition_name(0), "loader");
    assert_eq!(partition_name(2), "fdt.restore");
    assert_eq!(partition_name(9), "app");
    assert_eq!(partition_name(10), "par");
    assert_eq!(partition_name(11), "id11");
    assert_eq!(partition_name(4294967295), "id4294967295");
}

#[test]
fn hex_dump() {
    assert_eq!(hex(&[0x07, 0x2E, 0x01, 0xD6, 0x00, 0xFF]), "072E01D600FF");
    assert_eq!(hex(&[]), "");
}

#[test]
fn u32_fields() {
    assert_eq!(parse_u32_field("0x16071515"), Ok(0x1607_1515));
    assert_eq!(parse_u32_field("  0X1f \n"), Ok(0x1F));
    assert_eq!(parse_u32_field("0xffffffff"), Ok(u32::MAX));
    assert_eq!(parse_u32_field("42"), Ok(42));
    assert_eq!(parse_u32_field("+7"), Ok(7));
    assert_eq!(parse_u32_field("0x+a"), Ok(10));
    assert_eq!(parse_u32_field("4294967295"), Ok(u32::MAX));
    assert_eq!(parse_u32_field(""), Err(IntError::Empty));
    assert_eq!(parse_u32_field("0x"), Err(IntError::Empty));
    assert_eq!(parse_u32_field("+"), Err(IntError::InvalidDigit));
    assert_eq!(parse_u32_field("-1"), Err(IntError::InvalidDigit));
    assert_eq!(parse_u32_field("12a"), Err(IntError::InvalidDigit));
    assert_eq!(parse_u32_field("4294967296"), Err(IntError::PosOverflow));
    assert_eq!(parse_u32_field("0x100000000"), Err(IntError::PosOverflow));
    // Agrees with the standard library.
    for s in ["0", "007", "+12", "99999999999", "1_0", "abc", "-0"] {
        assert_eq!(parse_u32_field(s).ok(), s.parse::<u32>().ok(), "{s}");
    }
}

#[test]
fn powers_of_two() {
    assert!(is_power_of_two(1));
    assert!(is_power_of_two(0x40));
    assert!(is_power_of_two(1 << 63));
    assert!(!is_power_of_two(0));
    assert!(!is_power_of_two(48));
}

#[test]
fn solving_a_valid_region_changes_nothing() {
    let mut buf: Vec<u8> = (0u32..300).map(|i| (i * 11 % 256) as u8).collect();
    let w = solve(&mut buf, 100);
    assert!(is_valid(&buf));
    let before = buf.clone();
    assert_eq!(solve(&mut buf, 100), w);
    assert_eq!(buf, before);
    // An odd trailing byte is not summed.
    let mut odd = buf.clone();
    odd.push(0xAB);
    assert_eq!(nvt_chksum(&odd), nvt_chksum(&buf));
}

#[test]
fn tag_needs_its_size_field() {
    let mut part = vec![0u8; 0x100];
    part[0x40 + 0x1C..0x40 + 0x1E].copy_from_slice(&NVT_TAG_MAGIC.to_le_bytes());
    assert!(find_nvt_tag(&part).is_none());
    fix_nvt_tag(&mut part, 0x40).unwrap();
    let t = find_nvt_tag(&part).unwrap();
    assert_eq!(t.offset, 0x40);
    assert_eq!(t.tag, "");
    assert!(is_valid(&part));
}

#[test]
fn hex_fields_read_back() {
    assert_eq!(hex_text(0x1607_1515, 8), "0x16071515");
    assert_eq!(hex_text(0x350, 8), "0x00000350");
    assert_eq!(hex_text(0x350, 0), "0x350");
    assert_eq!(hex_text(0, 0), "0x0");
    assert_eq!(hex_text(u32::MAX, 8), "0xffffffff");
    for v in [0u32, 1, 0xA, 0x350, 0x7E00_0000, u32::MAX] {
        assert_eq!(hex_text(v, 8), format!("0x{v:08x}"));
        assert_eq!(hex_text(v, 0), format!("0x{v:x}"));
        assert_eq!(parse_u32_field(&hex_text(v, 8)), Ok(v));
        assert_eq!(parse_u32_field(&hex_text(v, 0)), Ok(v));
    }
}
