use lp_littlefs::ctz::{ctz, ctz_index, npw2, popc};

#[test]
fn ctz_index_empty() {
    let mut off = 0u64;
    let idx = ctz_index(128, &mut off);
    assert_eq!(idx, 0);
    assert_eq!(off, 0);
}

#[test]
fn ctz_index_first_block() {
    let b = 128 - 8;
    for size in 1..=b {
        let mut off = size as u64;
        let idx = ctz_index(128, &mut off);
        assert_eq!(idx, 0, "size={} off={}", size, off);
        assert_eq!(off, size as u64, "size={}", size);
    }
}

#[test]
fn ctz_index_second_block() {
    let b = 128 - 8;
    let mut off = (2 * b) as u64;
    let idx = ctz_index(128, &mut off);
    assert_eq!(idx, 1, "size={} b={} off={}", 2 * b, b, off);
    assert!(off <= b as u64, "off should be within block");
}

#[test]
fn popc_values() {
    assert_eq!(popc(0), 0);
    assert_eq!(popc(1), 1);
    assert_eq!(popc(3), 2);
    assert_eq!(popc(0xffff_ffff), 32);
}

#[test]
fn npw2_values() {
    assert_eq!(npw2(1), 1);
    assert_eq!(npw2(2), 2);
    assert_eq!(npw2(3), 4);
    assert_eq!(npw2(4), 4);
    assert_eq!(npw2(5), 8);
}

#[test]
fn ctz_values() {
    assert_eq!(ctz(0), 32);
    assert_eq!(ctz(1), 0);
    assert_eq!(ctz(8), 3);
    assert_eq!(ctz(0x8000_0000), 31);
    assert_eq!(ctz(12), 2);
}

#[test]
fn ctz_index_exact_third_block() {
    // block 512: block 0 holds 512 data bytes, block 1 one pointer and 508 bytes,
    // block 2 two pointers; byte 1030 is the 11th data byte of block 2.
    let mut off = 1030u64;
    let idx = ctz_index(512, &mut off);
    assert_eq!(idx, 2);
    assert_eq!(off, 10 + 8);
    let mut off1 = 1014u64;
    assert_eq!(ctz_index(512, &mut off1), 1);
    assert_eq!(off1, 506);
}
