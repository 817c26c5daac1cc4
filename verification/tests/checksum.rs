use viofo_fw::checksum::{is_valid, nvt_chksum, solve};

#[test]
fn solve_makes_region_valid() {
    let mut buf: Vec<u8> = (0u32..1000).map(|i| (i * 7 % 251) as u8).collect();
    assert!(!is_valid(&buf));
    solve(&mut buf, 8);
    assert!(is_valid(&buf));
}

#[test]
fn index_term_is_included() {
    // Two zero halfwords: sum = (0+0) + (0+1) = 1.
    assert_eq!(nvt_chksum(&[0, 0, 0, 0]), 1);
}
